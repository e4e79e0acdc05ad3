//! The decorators that come with the library.

use super::CTreeNodeID;
use super::ChildUpdate;
use crate::traits::Decorator;
use crate::Status;
use vstd::prelude::*;

verus! {

/// The text of a string that may be missing.
pub open spec fn text_of(text: Option<String>) -> Option<Seq<char>> {
    match text {
        Some(text) => Some(text@),
        None => None,
    }
}

/// What `std::fmt::Debug` writes of an inverter in its pretty form.
pub uninterp spec fn inverter_details(inverter: Inverter) -> Seq<char>;

/// What `std::fmt::Debug` writes of a repeater in its pretty form.
pub uninterp spec fn repeater_details(repeater: Repeater) -> Seq<char>;

/// What `std::fmt::Debug` writes of a subtree marker in its pretty form.
pub uninterp spec fn subtree_details(subtree: Subtree) -> Seq<char>;

/// `format!` with `std::fmt::Debug` in its pretty form, on an inverter: the
/// text is the same for the same inverter. Nothing else is claimed of it.
#[verifier::external_body]
fn inverter_text(inverter: &Inverter) -> (text: String)
    ensures
        text@ == inverter_details(*inverter),
{
    format!("{inverter:#?}")
}

/// `format!` with `std::fmt::Debug` in its pretty form, on a repeater: the
/// text is the same for the same repeater. Nothing else is claimed of it.
#[verifier::external_body]
fn repeater_text(repeater: &Repeater) -> (text: String)
    ensures
        text@ == repeater_details(*repeater),
{
    format!("{repeater:#?}")
}

/// `format!` with `std::fmt::Debug` in its pretty form, on a subtree marker:
/// the text is the same for the same marker. Nothing else is claimed of it.
#[verifier::external_body]
fn subtree_text(subtree: &Subtree) -> (text: String)
    ensures
        text@ == subtree_details(*subtree),
{
    format!("{subtree:#?}")
}

/// The digits of a number in base ten, the first digit first.
pub open spec fn decimal(number: nat) -> Seq<char>
    decreases number,
{
    if number < 10 {
        seq![digit(number)]
    } else {
        decimal(number / 10).push(digit(number % 10))
    }
}

/// The digit for a number below ten.
pub open spec fn digit(number: nat) -> char {
    if number == 0 {
        '0'
    } else if number == 1 {
        '1'
    } else if number == 2 {
        '2'
    } else if number == 3 {
        '3'
    } else if number == 4 {
        '4'
    } else if number == 5 {
        '5'
    } else if number == 6 {
        '6'
    } else if number == 7 {
        '7'
    } else if number == 8 {
        '8'
    } else {
        '9'
    }
}

/// `usize`'s `std::fmt::Display`: the number is written in base ten,
/// without a sign and without leading zeros.
#[verifier::external_body]
fn decimal_text(number: usize) -> (text: String)
    ensures
        text@ == decimal(number as nat),
{
    number.to_string()
}

/// `String::push_str`: the text has `more` appended to it.
#[verifier::external_body]
fn push_text(text: &mut String, more: &str)
    ensures
        final(text)@ == old(text)@ + more@,
{
    text.push_str(more)
}

/// Inverts the child's output status
#[derive(Debug, Clone, Copy, PartialEq, Eq, Hash, Structural)]
pub struct Inverter {
    pub child_status: Option<Status>,
}

impl Default for Inverter {
    fn default() -> (out: Self)
        ensures
            out == (Inverter { child_status: None }),
    {
        Inverter { child_status: None }
    }
}

impl Decorator for Inverter {
    open spec fn initialized(&self) -> Self {
        *self
    }

    open spec fn told(&self, update: ChildUpdate) -> Self {
        Inverter { child_status: Some(update.status) }
    }

    open spec fn answer(&self, update: ChildUpdate) -> Status {
        update.status.negated()
    }

    open spec fn reported(&self) -> Status {
        Status::or_running(self.child_status).negated()
    }

    open spec fn cleared(&self) -> Self {
        Inverter { child_status: None }
    }

    open spec fn wanted_reset(&self) -> Option<CTreeNodeID> {
        None
    }

    open spec fn asked(&self) -> Self {
        *self
    }

    fn child_updated(&mut self, update: ChildUpdate) -> (status: Status) {
        self.child_status = Some(update.status);
        update.status.inverted()
    }

    fn init(&mut self) {
    }

    fn status(&self) -> (status: Status) {
        self.child_status.unwrap_or_default().inverted()
    }

    fn reset(&mut self) {
        self.child_status = None;
    }

    fn reset_request(&mut self) -> (request: Option<CTreeNodeID>) {
        None
    }

    fn name(&self) -> (name: String)
        ensures
            name@ == "Inverter"@,
    {
        "Inverter".to_string()
    }

    /// What `std::fmt::Debug` writes of the decorator in its pretty form.
    fn details(&self) -> (details: Option<String>)
        ensures
            text_of(details) == Some(inverter_details(*self)),
    {
        Some(inverter_text(self))
    }
}

/// Marker to indicate that the branch below is a subtree. It passes the
/// status of its child through.
#[derive(Debug, PartialEq, Eq, Hash)]
pub struct Subtree {
    pub status: Option<Status>,
    pub name: Option<String>,
}

impl Subtree {
    /// A marker of that name that has not heard of its child.
    pub open spec fn named(self, name: Seq<char>) -> bool {
        self.status is None && self.name is Some && self.name->0@ == name
    }

    pub fn new(name: String) -> (out: Self)
        ensures
            out == (Subtree { status: None, name: Some(name) }),
    {
        Self { status: None, name: Some(name) }
    }
}

impl Default for Subtree {
    fn default() -> (out: Self)
        ensures
            out == (Subtree { status: None, name: None }),
    {
        Subtree { status: None, name: None }
    }
}

impl Clone for Subtree {
    fn clone(&self) -> (out: Self)
        ensures
            out == *self,
    {
        let name = match &self.name {
            Some(text) => Some(text.clone()),
            None => None,
        };
        Subtree { status: self.status, name }
    }
}

impl Decorator for Subtree {
    open spec fn initialized(&self) -> Self {
        *self
    }

    open spec fn told(&self, update: ChildUpdate) -> Self {
        Subtree { status: Some(update.status), name: self.name }
    }

    open spec fn answer(&self, update: ChildUpdate) -> Status {
        update.status
    }

    open spec fn reported(&self) -> Status {
        Status::or_running(self.status)
    }

    open spec fn cleared(&self) -> Self {
        Subtree { status: None, name: self.name }
    }

    open spec fn wanted_reset(&self) -> Option<CTreeNodeID> {
        None
    }

    open spec fn asked(&self) -> Self {
        *self
    }

    fn child_updated(&mut self, update: ChildUpdate) -> (status: Status) {
        self.status = Some(update.status);
        update.status
    }

    fn init(&mut self) {
    }

    fn status(&self) -> (status: Status) {
        self.status.unwrap_or_default()
    }

    fn reset(&mut self) {
        self.status = None;
    }

    fn reset_request(&mut self) -> (request: Option<CTreeNodeID>) {
        None
    }

    fn name(&self) -> (name: String)
        ensures
            name@ == (match self.name {
                Some(text) => text@,
                None => "Subtree"@,
            }),
    {
        match &self.name {
            Some(text) => text.clone(),
            None => "Subtree".to_string(),
        }
    }

    /// What `std::fmt::Debug` writes of the decorator in its pretty form.
    fn details(&self) -> (details: Option<String>)
        ensures
            text_of(details) == Some(subtree_details(*self)),
    {
        Some(subtree_text(self))
    }
}

/// Repeatedly re-run the child until it succeeds or the retries run out.
#[derive(Debug, Clone, Copy, PartialEq, Eq, Hash, Structural)]
pub struct Repeater {
    /// How many attempts are allowed, the first one included
    pub init_retry: usize,
    /// How many attempts are left
    pub retry: usize,
    /// The current status
    pub status: Option<Status>,
    /// The child to reset if it failed.
    pub reset_request: Option<CTreeNodeID>,
}

impl Default for Repeater {
    fn default() -> (out: Self)
        ensures
            out == (Repeater { init_retry: 0, retry: 0, status: None, reset_request: None }),
    {
        Repeater { init_retry: 0, retry: 0, status: None, reset_request: None }
    }
}

impl Repeater {
    /// A repeater that has all its attempts left and has not heard of its
    /// child: the state that [`Repeater::new`] and a reset give.
    pub open spec fn fresh(attempts: usize) -> Repeater {
        Repeater { init_retry: attempts, retry: attempts, status: None, reset_request: None }
    }

    /// Number of retries **after** the first failure
    pub fn new(retries: usize) -> (out: Self)
        requires
            retries < usize::MAX,
        ensures
            out == Repeater::fresh((retries + 1) as usize),
    {
        Self { init_retry: retries + 1, retry: retries + 1, status: None, reset_request: None }
    }

    pub fn can_retry(&self) -> (out: bool)
        ensures
            out == (self.retry > 0),
    {
        self.retry > 0
    }
}

impl Decorator for Repeater {
    open spec fn initialized(&self) -> Self {
        Repeater { status: Some(Status::Running), ..*self }
    }

    open spec fn told(&self, update: ChildUpdate) -> Self {
        if self.retry == 0 {
            Repeater { status: Some(Status::Failure), ..*self }
        } else {
            match update.status {
                Status::Success => Repeater {
                    status: Some(Status::Success),
                    reset_request: None,
                    ..*self
                },
                Status::Failure => Repeater {
                    retry: (self.retry - 1) as usize,
                    status: Some(Status::Running),
                    reset_request: Some(update.child_id),
                    ..*self
                },
                Status::Running => Repeater {
                    status: Some(Status::Running),
                    reset_request: Some(update.child_id),
                    ..*self
                },
            }
        }
    }

    open spec fn answer(&self, update: ChildUpdate) -> Status {
        if self.retry == 0 {
            Status::Failure
        } else if update.status == Status::Success {
            Status::Success
        } else {
            Status::Running
        }
    }

    open spec fn reported(&self) -> Status {
        match self.status {
            Some(status) => status,
            None => if self.retry > 0 {
                Status::Running
            } else {
                Status::Failure
            },
        }
    }

    open spec fn cleared(&self) -> Self {
        Repeater::fresh(self.init_retry)
    }

    open spec fn wanted_reset(&self) -> Option<CTreeNodeID> {
        if self.retry > 0 {
            self.reset_request
        } else {
            None
        }
    }

    open spec fn asked(&self) -> Self {
        if self.retry > 0 {
            Repeater { reset_request: None, ..*self }
        } else {
            *self
        }
    }

    fn child_updated(&mut self, update: ChildUpdate) -> (status: Status) {
        if !self.can_retry() {
            // out of retries, whatever the update was
            self.status = Some(Status::Failure);
            return Status::Failure;
        }
        match update.status {
            Status::Success => {
                self.status = Some(Status::Success);
                self.reset_request = None;
                Status::Success
            },
            Status::Failure => {
                self.retry -= 1;
                self.status = Some(Status::Running);
                self.reset_request = Some(update.child_id);
                Status::Running
            },
            Status::Running => {
                self.status = Some(Status::Running);
                self.reset_request = Some(update.child_id);
                Status::Running
            },
        }
    }

    fn init(&mut self) {
        self.status = Some(Status::Running);
    }

    fn status(&self) -> (status: Status) {
        if self.can_retry() {
            self.status.unwrap_or_default()
        } else {
            self.status.unwrap_or(Status::Failure)
        }
    }

    fn reset_request(&mut self) -> (request: Option<CTreeNodeID>) {
        if self.can_retry() {
            self.reset_request.take()
        } else {
            None
        }
    }

    fn reset(&mut self) {
        self.reset_request = None;
        self.status = None;
        self.retry = self.init_retry;
    }

    fn name(&self) -> (name: String)
        ensures
            name@ == "Repeat("@ + decimal(self.retry as nat) + ")"@,
    {
        let mut name = "Repeat(".to_owned();
        let digits = decimal_text(self.retry);
        push_text(&mut name, digits.as_str());
        push_text(&mut name, ")");
        name
    }

    /// What `std::fmt::Debug` writes of the decorator in its pretty form.
    fn details(&self) -> (details: Option<String>)
        ensures
            text_of(details) == Some(repeater_details(*self)),
    {
        Some(repeater_text(self))
    }
}

/// The decorators that the library provides.
#[derive(Debug, PartialEq, Eq, Hash)]
pub enum StandardDecorator {
    /// Inverts the child's output status
    Invert(Inverter),
    /// Repeatedly re-run the child until it succeeds or its retries run out
    Repeat(Repeater),
    /// Marker to indicate the branch is a subtree.
    Subtree(Subtree),
}

impl Clone for StandardDecorator {
    fn clone(&self) -> (out: Self)
        ensures
            out == *self,
    {
        match self {
            StandardDecorator::Invert(i) => StandardDecorator::Invert(*i),
            StandardDecorator::Repeat(r) => StandardDecorator::Repeat(*r),
            StandardDecorator::Subtree(s) => StandardDecorator::Subtree(s.clone()),
        }
    }
}

impl vstd::std_specs::convert::FromSpecImpl<Inverter> for StandardDecorator {
    open spec fn obeys_from_spec() -> bool {
        true
    }

    open spec fn from_spec(inverter: Inverter) -> StandardDecorator {
        StandardDecorator::Invert(inverter)
    }
}

impl From<Inverter> for StandardDecorator {
    fn from(inverter: Inverter) -> (out: Self) {
        StandardDecorator::Invert(inverter)
    }
}

impl vstd::std_specs::convert::FromSpecImpl<Repeater> for StandardDecorator {
    open spec fn obeys_from_spec() -> bool {
        true
    }

    open spec fn from_spec(repeater: Repeater) -> StandardDecorator {
        StandardDecorator::Repeat(repeater)
    }
}

impl From<Repeater> for StandardDecorator {
    fn from(repeater: Repeater) -> (out: Self) {
        StandardDecorator::Repeat(repeater)
    }
}

impl vstd::std_specs::convert::FromSpecImpl<Subtree> for StandardDecorator {
    open spec fn obeys_from_spec() -> bool {
        true
    }

    open spec fn from_spec(subtree: Subtree) -> StandardDecorator {
        StandardDecorator::Subtree(subtree)
    }
}

impl From<Subtree> for StandardDecorator {
    fn from(subtree: Subtree) -> (out: Self) {
        StandardDecorator::Subtree(subtree)
    }
}

impl StandardDecorator {
    pub fn inverter() -> (out: Self)
        ensures
            out == StandardDecorator::Invert(Inverter { child_status: None }),
    {
        StandardDecorator::Invert(Inverter::default())
    }

    pub fn repeater(retries: usize) -> (out: Self)
        requires
            retries < usize::MAX,
        ensures
            out == StandardDecorator::Repeat(Repeater::fresh((retries + 1) as usize)),
    {
        StandardDecorator::Repeat(Repeater::new(retries))
    }

    pub fn subtree() -> (out: Self)
        ensures
            out == StandardDecorator::Subtree(Subtree { status: None, name: None }),
    {
        StandardDecorator::Subtree(Subtree::default())
    }
}

impl Decorator for StandardDecorator {
    open spec fn initialized(&self) -> Self {
        match *self {
            StandardDecorator::Invert(i) => StandardDecorator::Invert(i.initialized()),
            StandardDecorator::Repeat(r) => StandardDecorator::Repeat(r.initialized()),
            StandardDecorator::Subtree(s) => StandardDecorator::Subtree(s.initialized()),
        }
    }

    open spec fn told(&self, update: ChildUpdate) -> Self {
        match *self {
            StandardDecorator::Invert(i) => StandardDecorator::Invert(i.told(update)),
            StandardDecorator::Repeat(r) => StandardDecorator::Repeat(r.told(update)),
            StandardDecorator::Subtree(s) => StandardDecorator::Subtree(s.told(update)),
        }
    }

    open spec fn answer(&self, update: ChildUpdate) -> Status {
        match *self {
            StandardDecorator::Invert(i) => i.answer(update),
            StandardDecorator::Repeat(r) => r.answer(update),
            StandardDecorator::Subtree(s) => s.answer(update),
        }
    }

    open spec fn reported(&self) -> Status {
        match *self {
            StandardDecorator::Invert(i) => i.reported(),
            StandardDecorator::Repeat(r) => r.reported(),
            StandardDecorator::Subtree(s) => s.reported(),
        }
    }

    open spec fn cleared(&self) -> Self {
        match *self {
            StandardDecorator::Invert(i) => StandardDecorator::Invert(i.cleared()),
            StandardDecorator::Repeat(r) => StandardDecorator::Repeat(r.cleared()),
            StandardDecorator::Subtree(s) => StandardDecorator::Subtree(s.cleared()),
        }
    }

    open spec fn wanted_reset(&self) -> Option<CTreeNodeID> {
        match *self {
            StandardDecorator::Invert(i) => i.wanted_reset(),
            StandardDecorator::Repeat(r) => r.wanted_reset(),
            StandardDecorator::Subtree(s) => s.wanted_reset(),
        }
    }

    open spec fn asked(&self) -> Self {
        match *self {
            StandardDecorator::Invert(i) => StandardDecorator::Invert(i.asked()),
            StandardDecorator::Repeat(r) => StandardDecorator::Repeat(r.asked()),
            StandardDecorator::Subtree(s) => StandardDecorator::Subtree(s.asked()),
        }
    }

    fn child_updated(&mut self, update: ChildUpdate) -> (status: Status) {
        match self {
            StandardDecorator::Invert(i) => i.child_updated(update),
            StandardDecorator::Repeat(r) => r.child_updated(update),
            StandardDecorator::Subtree(s) => s.child_updated(update),
        }
    }

    fn init(&mut self) {
        match self {
            StandardDecorator::Invert(i) => i.init(),
            StandardDecorator::Repeat(r) => r.init(),
            StandardDecorator::Subtree(s) => s.init(),
        }
    }

    fn status(&self) -> (status: Status) {
        match self {
            StandardDecorator::Invert(i) => i.status(),
            StandardDecorator::Repeat(r) => r.status(),
            StandardDecorator::Subtree(s) => s.status(),
        }
    }

    fn reset(&mut self) {
        match self {
            StandardDecorator::Invert(i) => i.reset(),
            StandardDecorator::Repeat(r) => r.reset(),
            StandardDecorator::Subtree(s) => s.reset(),
        }
    }

    fn reset_request(&mut self) -> (request: Option<CTreeNodeID>) {
        match self {
            StandardDecorator::Invert(i) => i.reset_request(),
            StandardDecorator::Repeat(r) => r.reset_request(),
            StandardDecorator::Subtree(s) => s.reset_request(),
        }
    }

    fn name(&self) -> (name: String)
        ensures
            name@ == (match *self {
                StandardDecorator::Invert(_) => "Inverter"@,
                StandardDecorator::Repeat(r) => "Repeat("@ + decimal(r.retry as nat) + ")"@,
                StandardDecorator::Subtree(s) => match s.name {
                    Some(text) => text@,
                    None => "Subtree"@,
                },
            }),
    {
        match self {
            StandardDecorator::Invert(i) => i.name(),
            StandardDecorator::Repeat(r) => r.name(),
            StandardDecorator::Subtree(s) => s.name(),
        }
    }

    /// What `std::fmt::Debug` writes, in its pretty form, of the decorator
    /// that this one holds.
    fn details(&self) -> (details: Option<String>)
        ensures
            text_of(details) == Some(
                match *self {
                    StandardDecorator::Invert(i) => inverter_details(i),
                    StandardDecorator::Repeat(r) => repeater_details(r),
                    StandardDecorator::Subtree(s) => subtree_details(s),
                },
            ),
    {
        match self {
            StandardDecorator::Invert(i) => i.details(),
            StandardDecorator::Repeat(r) => r.details(),
            StandardDecorator::Subtree(s) => s.details(),
        }
    }
}

impl Repeater {
    /// The repeater after its child has failed `times` times in a row.
    pub open spec fn after_failures(self, child: CTreeNodeID, times: nat) -> Repeater
        decreases times,
    {
        if times == 0 {
            self
        } else {
            self.after_failures(child, (times - 1) as nat).told(
                ChildUpdate { status: Status::Failure, child_id: child },
            )
        }
    }
}

/// An inverter answers a terminal child with the other terminal status, and
/// a running child with running; and that is what it reports from then on.
pub proof fn lemma_inverter_negates(inverter: Inverter, update: ChildUpdate)
    ensures
        inverter.answer(update) == update.status.negated(),
        inverter.told(update).reported() == update.status.negated(),
        update.status == Status::Success ==> inverter.answer(update) == Status::Failure,
        update.status == Status::Failure ==> inverter.answer(update) == Status::Success,
        update.status == Status::Running ==> inverter.answer(update) == Status::Running,
{
}

/// A repeater of `attempts` attempts lets its child fail that often: while
/// fewer failures have come, it stays running and has attempts left.
pub proof fn lemma_repeater_counts_down(attempts: usize, child: CTreeNodeID, times: nat)
    requires
        times <= attempts,
    ensures
        Repeater::fresh(attempts).after_failures(child, times).retry == attempts - times,
        Repeater::fresh(attempts).after_failures(child, times).init_retry == attempts,
        times > 0 ==> Repeater::fresh(attempts).after_failures(child, times).status == Some(
            Status::Running,
        ),
        times > 0 ==> Repeater::fresh(attempts).after_failures(child, times).reset_request
            == Some(child),
    decreases times,
{
    if times > 0 {
        lemma_repeater_counts_down(attempts, child, (times - 1) as nat);
    }
}

/// A repeater of `attempts` attempts answers each of the first `attempts`
/// failures of its child with running. After each but the last of them it
/// asks for the child to be reset, so that the child is run `attempts`
/// times. From the last of them on it asks for no reset, and it answers
/// with failure whatever it is told.
pub proof fn lemma_repeater_gives_up(attempts: usize, child: CTreeNodeID, times: nat, update: ChildUpdate)
    requires
        1 <= times <= attempts,
    ensures
        Repeater::fresh(attempts).after_failures(child, (times - 1) as nat).answer(
            ChildUpdate { status: Status::Failure, child_id: child },
        ) == Status::Running,
        times < attempts ==> Repeater::fresh(attempts).after_failures(child, times).wanted_reset()
            == Some(child),
        times == attempts ==> {
            let spent = Repeater::fresh(attempts).after_failures(child, times);
            &&& spent.wanted_reset() is None
            &&& spent.answer(update) == Status::Failure
            &&& spent.told(update).reported() == Status::Failure
        },
{
    lemma_repeater_counts_down(attempts, child, (times - 1) as nat);
    lemma_repeater_counts_down(attempts, child, times);
}

/// A repeater succeeds as soon as its child does, while it has attempts
/// left.
pub proof fn lemma_repeater_takes_success(repeater: Repeater, child: CTreeNodeID)
    requires
        repeater.retry > 0,
    ensures
        repeater.answer(ChildUpdate { status: Status::Success, child_id: child })
            == Status::Success,
        repeater.told(ChildUpdate { status: Status::Success, child_id: child }).reported()
            == Status::Success,
        repeater.told(ChildUpdate { status: Status::Success, child_id: child }).wanted_reset()
            is None,
{
}

/// A reset gives a repeater all its attempts back, whatever it was told
/// before: a repeater that is reset by a repeater above it lets its child
/// fail as often as at first.
pub proof fn lemma_repeater_reset_restores(repeater: Repeater, update: ChildUpdate)
    ensures
        repeater.told(update).init_retry == repeater.init_retry,
        repeater.asked().init_retry == repeater.init_retry,
        repeater.initialized().init_retry == repeater.init_retry,
        repeater.cleared() == Repeater::fresh(repeater.init_retry),
        repeater.told(update).cleared() == repeater.cleared(),
{
}

/// A subtree marker passes the status of its child through.
pub proof fn lemma_subtree_passes_through(subtree: Subtree, update: ChildUpdate)
    ensures
        subtree.answer(update) == update.status,
        subtree.told(update).reported() == update.status,
        subtree.told(update).name == subtree.name,
{
}

} // verus!
