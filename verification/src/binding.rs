//! The binding of a table to its schema: how the types of its keys and
//! values are learned from what the engine says when the table is opened
//! under the wrong ones.
//!
//! A table is first opened under assumed types. The engine may answer with
//! the names of the true types, or with the true width of a type that was
//! named. Each answer is one fact; the table is opened again with it. When
//! the table opens, the names are parsed: a table whose names describe
//! types is bound, one whose names describe none falls back to raw bytes.

use vstd::prelude::*;
use vstd::utf8::encode_utf8;
use crate::descriptor::{descriptor_type, parse_tree};
use crate::error::ParseError;
use crate::text::str_eq;
use crate::transcode::{enc_de, EncDe, K, V};
use crate::tree::{can_order, parse_size, TypeView};

verus! {

/// How often a table is opened before the library gives up.
pub const MAX_ATTEMPTS: usize = 5;

/// Where the binding of a table stands.
#[derive(Clone, Copy, Debug, PartialEq, Eq)]
pub enum Phase {
    /// Nothing is known yet: the types are those assumed at the start.
    Assumed,
    /// The engine has told a fact, and the table is to be opened again.
    Probing,
    /// The table is open and both its types are known.
    Bound,
    /// The table is open, but a name describes a type that the library does
    /// not know: its bytes are handled raw.
    Fallback,
    /// The table cannot be used.
    Failed,
}

/// Why a table cannot be used.
#[derive(Clone, Copy, Debug, PartialEq, Eq)]
pub enum Fault {
    /// The engine contradicts the schema that the caller gave.
    Mismatch,
    /// There is no such table, and none was to be created.
    NotFound,
    /// The engine failed otherwise.
    Engine,
    /// The table did not open within [`MAX_ATTEMPTS`] attempts.
    Exhausted,
    /// A type name is no descriptor.
    Descriptor,
    /// The key type, or the value type of a table with several values to a
    /// key, has no order.
    Unorderable,
}

/// What the engine says when a table is opened.
pub enum Outcome {
    /// The table is open.
    Opened,
    /// The table has other types: these are their names.
    NameMismatch { key: String, value: String },
    /// The type of this name has another width: this one.
    WidthMismatch { name: String, width: Option<usize> },
    /// There is no such table.
    NotFound,
    /// Anything else.
    Other,
}

/// What is to be done next.
#[derive(Clone, Copy, Debug, PartialEq, Eq)]
pub enum Action {
    /// Open the table under the types of the binding.
    Open,
    /// Create the table, then open it.
    Create,
    /// Nothing: the binding has come to its end.
    Done,
}

/// What the library declares of a type when it opens a table: its name and
/// its width.
pub struct Slot {
    pub name: String,
    pub width: Option<usize>,
}

/// The mathematical value of a [`Slot`].
pub ghost struct SlotView {
    pub name: Seq<char>,
    pub width: Option<usize>,
}

impl View for Slot {
    type V = SlotView;

    open spec fn view(&self) -> SlotView {
        SlotView { name: self.name@, width: self.width }
    }
}

/// The mathematical value of an [`Outcome`].
pub ghost enum OutcomeView {
    Opened,
    NameMismatch { key: Seq<char>, value: Seq<char> },
    WidthMismatch { name: Seq<char>, width: Option<usize> },
    NotFound,
    Other,
}

impl View for Outcome {
    type V = OutcomeView;

    open spec fn view(&self) -> OutcomeView {
        match self {
            Outcome::Opened => OutcomeView::Opened,
            Outcome::NameMismatch { key, value } => OutcomeView::NameMismatch { key: key@, value: value@ },
            Outcome::WidthMismatch { name, width } => OutcomeView::WidthMismatch { name: name@, width: *width },
            Outcome::NotFound => OutcomeView::NotFound,
            Outcome::Other => OutcomeView::Other,
        }
    }
}

/// The state of the binding of one table.
pub struct Discovery {
    phase: Phase,
    fault: Option<Fault>,
    key: Slot,
    value: Slot,
    attempts: usize,
    given: bool,
    create: bool,
    multi: bool,
}

/// The mathematical value of a [`Discovery`].
pub ghost struct DiscoveryView {
    pub phase: Phase,
    pub fault: Option<Fault>,
    pub key: SlotView,
    pub value: SlotView,
    /// How often the table has been opened.
    pub attempts: nat,
    /// Whether the caller gave the schema, so that the engine's word on it
    /// is an error and no fact.
    pub given: bool,
    /// Whether a missing table is to be created.
    pub create: bool,
    /// Whether a key may have several values.
    pub multi: bool,
}

impl View for Discovery {
    type V = DiscoveryView;

    closed spec fn view(&self) -> DiscoveryView {
        DiscoveryView {
            phase: self.phase,
            fault: self.fault,
            key: self.key@,
            value: self.value@,
            attempts: self.attempts as nat,
            given: self.given,
            create: self.create,
            multi: self.multi,
        }
    }
}

/// Whether the type that `name` describes may not bear a sort order.
pub open spec fn unorderable(name: Seq<char>) -> bool {
    descriptor_type(encode_utf8(name)) matches Ok(t) && !t.orderable()
}

/// Whether `name` describes a type that the library does not know.
pub open spec fn unknown(name: Seq<char>) -> bool {
    descriptor_type(encode_utf8(name)) == Err::<TypeView, ParseError>(ParseError::UnknownType)
}

/// Whether `name` is no descriptor.
pub open spec fn malformed(name: Seq<char>) -> bool {
    descriptor_type(encode_utf8(name)) == Err::<TypeView, ParseError>(ParseError::Syntax)
}

impl DiscoveryView {
    /// Whether the binding has come to its end.
    pub open spec fn settled(self) -> bool {
        self.phase is Bound || self.phase is Fallback || self.phase is Failed
    }

    /// The binding as failed for the reason `fault`.
    pub open spec fn failed(self, fault: Fault) -> DiscoveryView {
        DiscoveryView { phase: Phase::Failed, fault: Some(fault), ..self }
    }

    /// The binding after one more attempt that taught the types `key` and
    /// `value`: it goes on, unless that was the last attempt.
    pub open spec fn retried(self, key: SlotView, value: SlotView) -> DiscoveryView {
        if self.attempts + 1 >= MAX_ATTEMPTS {
            DiscoveryView { attempts: self.attempts + 1, key, value, ..self }.failed(Fault::Exhausted)
        } else {
            DiscoveryView { phase: Phase::Probing, attempts: self.attempts + 1, key, value, ..self }
        }
    }

    /// The binding once the table is open: failed where a name is no
    /// descriptor or a sort-bearing type has no order, fallen back where a
    /// name describes an unknown type, and bound otherwise.
    pub open spec fn opened(self) -> DiscoveryView {
        let next = DiscoveryView { attempts: self.attempts + 1, ..self };
        if malformed(self.key.name) || malformed(self.value.name) {
            next.failed(Fault::Descriptor)
        } else if unorderable(self.key.name) || (self.multi && unorderable(self.value.name)) {
            next.failed(Fault::Unorderable)
        } else if unknown(self.key.name) || unknown(self.value.name) {
            DiscoveryView { phase: Phase::Fallback, ..next }
        } else {
            DiscoveryView { phase: Phase::Bound, ..next }
        }
    }

    /// The binding after the engine's answer `outcome` to one more attempt
    /// to open the table.
    pub open spec fn step(self, outcome: OutcomeView) -> DiscoveryView {
        if self.settled() {
            self
        } else {
            match outcome {
                OutcomeView::Opened => self.opened(),
                OutcomeView::NameMismatch { key, value } => if self.given {
                    self.failed(Fault::Mismatch)
                } else {
                    self.retried(
                        SlotView { name: key, width: self.key.width },
                        SlotView { name: value, width: self.value.width },
                    )
                },
                OutcomeView::WidthMismatch { name, width } => if self.given {
                    self.failed(Fault::Mismatch)
                } else {
                    self.retried(
                        SlotView {
                            name: self.key.name,
                            width: if self.key.name == name {
                                width
                            } else {
                                self.key.width
                            },
                        },
                        SlotView {
                            name: self.value.name,
                            width: if self.value.name == name {
                                width
                            } else {
                                self.value.width
                            },
                        },
                    )
                },
                OutcomeView::NotFound => if self.create {
                    self.retried(self.key, self.value)
                } else {
                    self.failed(Fault::NotFound)
                },
                OutcomeView::Other => self.failed(Fault::Engine),
            }
        }
    }

    /// What is to be done in this state after the answer `outcome`.
    pub open spec fn action(self, outcome: OutcomeView) -> Action {
        if self.settled() {
            Action::Done
        } else if outcome is NotFound {
            Action::Create
        } else {
            Action::Open
        }
    }

    /// The binding after the engine's answers `outcomes`, one after the
    /// other.
    pub open spec fn run(self, outcomes: Seq<OutcomeView>) -> DiscoveryView
        decreases outcomes.len(),
    {
        if outcomes.len() == 0 {
            self
        } else {
            self.run(outcomes.drop_last()).step(outcomes.last())
        }
    }
}

/// The binding at its start: both types are assumed to be text.
pub open spec fn assumed(create: bool, multi: bool) -> DiscoveryView {
    DiscoveryView {
        phase: Phase::Assumed,
        fault: None,
        key: SlotView { name: "String"@, width: None },
        value: SlotView { name: "String"@, width: None },
        attempts: 0,
        given: false,
        create,
        multi,
    }
}

impl Discovery {
    #[verifier::type_invariant]
    spec fn inv(self) -> bool {
        &&& self.attempts <= MAX_ATTEMPTS
        &&& self.attempts < MAX_ATTEMPTS || self@.settled()
        &&& self.phase is Bound || self.phase is Fallback ==> !unorderable(self.key.name@)
    }

    /// The binding of a table of which nothing is known.
    pub fn new(create: bool, multi: bool) -> (r: Discovery)
        ensures
            r@ == assumed(create, multi),
    {
        Discovery {
            phase: Phase::Assumed,
            fault: None,
            key: Slot { name: "String".to_string(), width: None },
            value: Slot { name: "String".to_string(), width: None },
            attempts: 0,
            given: false,
            create,
            multi,
        }
    }

    /// The binding of a table whose schema the caller gives: the
    /// descriptors of its key and value types. Both have to describe types.
    pub fn with_schema(key: &str, value: &str, create: bool, multi: bool) -> (r: Result<Discovery, ParseError>)
        ensures
            match r {
                Ok(d) => descriptor_type(encode_utf8(key@)) matches Ok(kt) && descriptor_type(
                    encode_utf8(value@),
                ) matches Ok(vt) && d@.phase == Phase::Assumed && d@.fault is None && d@.attempts == 0
                    && d@.given && d@.create == create && d@.multi == multi && d@.key.name == key@
                    && d@.value.name == value@ && width_is(d@.key.width, kt.width()) && width_is(
                    d@.value.width,
                    vt.width(),
                ),
                Err(e) => match descriptor_type(encode_utf8(key@)) {
                    Err(first) => e == first,
                    Ok(_) => descriptor_type(encode_utf8(value@)) == Err::<TypeView, ParseError>(e),
                },
            },
    {
        let key_tree = parse_tree(key)?;
        let value_tree = parse_tree(value)?;
        Ok(
            Discovery {
                phase: Phase::Assumed,
                fault: None,
                key: Slot { name: key.to_string(), width: parse_size(&key_tree) },
                value: Slot { name: value.to_string(), width: parse_size(&value_tree) },
                attempts: 0,
                given: true,
                create,
                multi,
            },
        )
    }

    /// Where the binding stands.
    pub fn phase(&self) -> (r: Phase)
        ensures
            r == self@.phase,
    {
        self.phase
    }

    /// Why the binding failed, if it did.
    pub fn fault(&self) -> (r: Option<Fault>)
        ensures
            r == self@.fault,
    {
        self.fault
    }

    /// How often the table has been opened: never more than
    /// [`MAX_ATTEMPTS`] times.
    pub fn attempts(&self) -> (r: usize)
        ensures
            r == self@.attempts,
            r <= MAX_ATTEMPTS,
    {
        proof {
            use_type_invariant(self);
        }
        self.attempts
    }

    /// What the library declares of the key type.
    pub fn key(&self) -> (r: &Slot)
        ensures
            r@ == self@.key,
    {
        &self.key
    }

    /// What the library declares of the value type.
    pub fn value(&self) -> (r: &Slot)
        ensures
            r@ == self@.value,
    {
        &self.value
    }

    /// Whether the table may only be read: its bytes are handled raw, and
    /// the caller did not force writes.
    pub fn read_only(&self, force: bool) -> (r: bool)
        ensures
            r == (self@.phase is Fallback && !force),
    {
        match self.phase {
            Phase::Fallback => !force,
            _ => false,
        }
    }

    /// The binding as failed for the reason `fault`.
    fn fail(self, fault: Fault) -> (r: Discovery)
        ensures
            r@ == self@.failed(fault),
    {
        proof {
            use_type_invariant(&self);
        }
        Discovery {
            phase: Phase::Failed,
            fault: Some(fault),
            key: self.key,
            value: self.value,
            attempts: self.attempts,
            given: self.given,
            create: self.create,
            multi: self.multi,
        }
    }

    /// The binding after one more attempt that taught the types `key` and
    /// `value`.
    fn retry(self, key: Slot, value: Slot) -> (r: Discovery)
        requires
            !self@.settled(),
        ensures
            r@ == self@.retried(key@, value@),
    {
        proof {
            use_type_invariant(&self);
        }
        let attempts = self.attempts + 1;
        if attempts >= MAX_ATTEMPTS {
            Discovery {
                phase: Phase::Failed,
                fault: Some(Fault::Exhausted),
                key,
                value,
                attempts,
                given: self.given,
                create: self.create,
                multi: self.multi,
            }
        } else {
            Discovery {
                phase: Phase::Probing,
                fault: self.fault,
                key,
                value,
                attempts,
                given: self.given,
                create: self.create,
                multi: self.multi,
            }
        }
    }

    /// The binding once the table is open.
    fn open(self) -> (r: Discovery)
        requires
            !self@.settled(),
        ensures
            r@ == self@.opened(),
    {
        proof {
            use_type_invariant(&self);
        }
        let key = classify(self.key.name.as_str());
        let value = classify(self.value.name.as_str());
        let fault = if key.malformed || value.malformed {
            Some(Fault::Descriptor)
        } else if key.unorderable || (self.multi && value.unorderable) {
            Some(Fault::Unorderable)
        } else {
            None
        };
        let phase = if fault.is_some() {
            Phase::Failed
        } else if key.unknown || value.unknown {
            Phase::Fallback
        } else {
            Phase::Bound
        };
        Discovery {
            phase,
            fault: if fault.is_some() {
                fault
            } else {
                self.fault
            },
            key: self.key,
            value: self.value,
            attempts: self.attempts + 1,
            given: self.given,
            create: self.create,
            multi: self.multi,
        }
    }

    /// The binding after the engine's answer to one more attempt to open
    /// the table, and what is to be done next. A binding that has come to
    /// its end stays as it is.
    pub fn step(self, outcome: Outcome) -> (r: (Discovery, Action))
        ensures
            r.0@ == self@.step(outcome@),
            r.1 == r.0@.action(outcome@),
    {
        match self.phase {
            Phase::Bound | Phase::Fallback | Phase::Failed => {
                return (self, Action::Done);
            },
            _ => {},
        }
        let missing = outcome_kind(&outcome);
        let next = match outcome {
            Outcome::Opened => self.open(),
            Outcome::NameMismatch { key, value } => {
                if self.given {
                    self.fail(Fault::Mismatch)
                } else {
                    let key_width = self.key.width;
                    let value_width = self.value.width;
                    self.retry(Slot { name: key, width: key_width }, Slot { name: value, width: value_width })
                }
            },
            Outcome::WidthMismatch { name, width } => {
                if self.given {
                    self.fail(Fault::Mismatch)
                } else {
                    let key = Slot {
                        name: self.key.name.clone(),
                        width: if str_eq(self.key.name.as_str(), name.as_str()) {
                            width
                        } else {
                            self.key.width
                        },
                    };
                    let value = Slot {
                        name: self.value.name.clone(),
                        width: if str_eq(self.value.name.as_str(), name.as_str()) {
                            width
                        } else {
                            self.value.width
                        },
                    };
                    self.retry(key, value)
                }
            },
            Outcome::NotFound => {
                if self.create {
                    let key = Slot { name: self.key.name.clone(), width: self.key.width };
                    let value = Slot { name: self.value.name.clone(), width: self.value.width };
                    self.retry(key, value)
                } else {
                    self.fail(Fault::NotFound)
                }
            },
            Outcome::Other => self.fail(Fault::Engine),
        };
        let action = match next.phase {
            Phase::Bound | Phase::Fallback | Phase::Failed => Action::Done,
            _ => if missing {
                Action::Create
            } else {
                Action::Open
            },
        };
        (next, action)
    }

    /// The adapters of a table that is bound or has fallen back, and of no
    /// other: each works under the type that its name describes, or raw
    /// where the name describes a type that the library does not know.
    pub fn adapters(self) -> (r: Option<(K, V)>)
        ensures
            r is Some <==> self@.phase is Bound || self@.phase is Fallback,
            match r {
                Some((k, v)) => k.name() == self@.key.name && k.width() == self@.key.width && v.name()
                    == self@.value.name && v.width() == self@.value.width && is_codec_of(
                    k.codec(),
                    self@.key.name,
                ) && is_codec_of(v.codec(), self@.value.name),
                None => true,
            },
    {
        proof {
            use_type_invariant(&self);
        }
        match self.phase {
            Phase::Bound | Phase::Fallback => {},
            _ => {
                return None;
            },
        }
        let key_codec = codec_of(self.key.name.as_str());
        let value_codec = codec_of(self.value.name.as_str());
        match K::new(self.key.name, self.key.width, key_codec) {
            Ok(k) => Some((k, V::new(self.value.name, self.value.width, value_codec))),
            Err(_) => None,
        }
    }
}

/// Whether the engine said that there is no such table.
fn outcome_kind(outcome: &Outcome) -> (r: bool)
    ensures
        r == outcome@ is NotFound,
{
    match outcome {
        Outcome::NotFound => true,
        _ => false,
    }
}

/// Whether the width `held` is the width `w`.
pub open spec fn width_is(held: Option<usize>, w: Option<nat>) -> bool {
    match held {
        Some(n) => w == Some(n as nat),
        None => w is None,
    }
}

/// Whether `codec` is the codec for the type that the engine names `name`:
/// raw for text and for a name that describes no type, that of the type
/// otherwise.
pub open spec fn is_codec_of(codec: EncDe, name: Seq<char>) -> bool {
    match descriptor_type(encode_utf8(name)) {
        Ok(t) => codec.tree() == (if t is String {
            None
        } else {
            Some(t)
        }),
        Err(_) => codec.tree() is None,
    }
}

/// The codec for the type that the engine names `name`.
pub fn codec_of(name: &str) -> (r: EncDe)
    ensures
        is_codec_of(r, name@),
{
    match enc_de(name) {
        Some(codec) => codec,
        None => EncDe::new_for_slices(),
    }
}

/// What a type name is to the library.
struct NameClass {
    malformed: bool,
    unknown: bool,
    unorderable: bool,
}

fn classify(name: &str) -> (r: NameClass)
    ensures
        r.malformed == malformed(name@),
        r.unknown == unknown(name@),
        r.unorderable == unorderable(name@),
{
    match parse_tree(name) {
        Ok(tree) => NameClass { malformed: false, unknown: false, unorderable: !can_order(&tree) },
        Err(ParseError::Syntax) => NameClass { malformed: true, unknown: false, unorderable: false },
        Err(ParseError::UnknownType) => NameClass { malformed: false, unknown: true, unorderable: false },
    }
}

/// Within the bound: an engine that first tells the names of both types,
/// then the width of the key type, then that of the value type, and then
/// opens the table, is asked four times, one less than the bound allows.
/// No answer is asked for twice: the names stay as they were told while
/// the widths are learned, and the key's width stays while the value's is
/// learned, and the table is bound where both names describe types and the
/// sort-bearing types have an order.
pub proof fn lemma_discovery_within_bound(
    create: bool,
    multi: bool,
    key: Seq<char>,
    value: Seq<char>,
    key_width: Option<usize>,
    value_width: Option<usize>,
)
    ensures
        ({
            let s0 = assumed(create, multi);
            let s1 = s0.step(OutcomeView::NameMismatch { key, value });
            let s2 = s1.step(OutcomeView::WidthMismatch { name: key, width: key_width });
            let s3 = s2.step(OutcomeView::WidthMismatch { name: value, width: value_width });
            let s4 = s3.step(OutcomeView::Opened);
            &&& s1.phase is Probing && s2.phase is Probing && s3.phase is Probing
            &&& s1.key.name == key && s1.value.name == value
            &&& s2.key.name == key && s2.value.name == value
            &&& s3.key.name == key && s3.value.name == value
            &&& key != value ==> s2.key.width == key_width && s3.key.width == key_width
            &&& s3.value.width == value_width
            &&& s4.settled()
            &&& s4.attempts == 4
            &&& s4.attempts <= MAX_ATTEMPTS
            &&& s4.key == s3.key && s4.value == s3.value
            &&& s4.phase is Bound <==> descriptor_type(encode_utf8(key)) is Ok && descriptor_type(
                encode_utf8(value),
            ) is Ok && !unorderable(key) && !(multi && unorderable(value))
        }),
{
}

/// The bound holds of every engine: whatever it answers, the table is
/// opened no more than [`MAX_ATTEMPTS`] times, and a binding that has not
/// come to its end has attempts left.
pub proof fn lemma_attempts_bounded(start: DiscoveryView, outcomes: Seq<OutcomeView>)
    requires
        start.attempts < MAX_ATTEMPTS || start.settled(),
        start.attempts <= MAX_ATTEMPTS,
    ensures
        start.run(outcomes).attempts <= MAX_ATTEMPTS,
        start.run(outcomes).attempts < MAX_ATTEMPTS || start.run(outcomes).settled(),
    decreases outcomes.len(),
{
    if outcomes.len() > 0 {
        lemma_attempts_bounded(start, outcomes.drop_last());
    }
}

} // verus!
