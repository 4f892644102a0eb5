use vstd::prelude::*;
use vstd::string::*;
use std::rc::Rc;

verus! {

/// The three signatures of an input event, kept in a single string and separated by `'\0'`.
#[derive(Debug)]
pub struct Signatures {
    text: String,
    subject_start: usize,
    object_start: usize,
    total_len: usize,
}

impl Signatures {
    #[verifier::type_invariant]
    spec fn inv(self) -> bool {
        &&& 1 <= self.subject_start
        &&& self.subject_start + 1 <= self.object_start
        &&& self.object_start <= self.text@.len()
        &&& self.total_len == self.text@.len()
    }

    /// The whole text: event, subject and object signatures joined by `'\0'`.
    pub closed spec fn text_view(self) -> Seq<char> {
        self.text@
    }

    /// The event signature.
    pub closed spec fn event_view(self) -> Seq<char> {
        self.text@.subrange(0, self.subject_start - 1)
    }

    /// The subject signature.
    pub closed spec fn subject_view(self) -> Seq<char> {
        self.text@.subrange(self.subject_start as int, self.object_start - 1)
    }

    /// The object signature.
    pub closed spec fn object_view(self) -> Seq<char> {
        self.text@.subrange(self.object_start as int, self.text@.len() as int)
    }
}

impl Clone for Signatures {
    fn clone(&self) -> (res: Self)
        ensures
            res.text_view() == self.text_view(),
            res.event_view() == self.event_view(),
            res.subject_view() == self.subject_view(),
            res.object_view() == self.object_view(),
    {
        proof {
            use_type_invariant(self);
        }
        Signatures {
            text: self.text.clone(),
            subject_start: self.subject_start,
            object_start: self.object_start,
            total_len: self.total_len,
        }
    }
}

/// Input event, which is an arc of the provenance graph.
#[derive(Clone, Debug)]
pub struct InputEvent {
    /// Records when this event occurs.
    pub timestamp: u64,
    /// The id of this event.
    pub event_id: u64,
    /// The node (entity) where this arc is from.
    pub subject_id: u64,
    /// The node (entity) where this arc goes to.
    pub object_id: u64,
    pub signatures: Signatures,
}

/// The text that joins the three signatures with `'\0'` separators.
pub open spec fn joined_signatures(event: Seq<char>, subject: Seq<char>, object: Seq<char>) -> Seq<char> {
    event + seq!['\0'] + subject + seq!['\0'] + object
}

impl InputEvent {
    /// The signature of this event.
    pub closed spec fn event_signature_view(&self) -> Seq<char> {
        self.signatures.event_view()
    }

    /// The signature of the subject entity.
    pub closed spec fn subject_signature_view(&self) -> Seq<char> {
        self.signatures.subject_view()
    }

    /// The signature of the object entity.
    pub closed spec fn object_signature_view(&self) -> Seq<char> {
        self.signatures.object_view()
    }

    /// The joined text of the three signatures.
    pub closed spec fn signatures_view(&self) -> Seq<char> {
        self.signatures.text_view()
    }

    pub fn new(
        timestamp: u64,
        event_id: u64,
        event_signature: &str,
        subject_id: u64,
        subject_signature: &str,
        object_id: u64,
        object_signature: &str,
    ) -> (res: Self)
        requires
            event_signature@.len() + subject_signature@.len() + object_signature@.len() + 2
                <= usize::MAX,
        ensures
            res.timestamp == timestamp,
            res.event_id == event_id,
            res.subject_id == subject_id,
            res.object_id == object_id,
            res.event_signature_view() == event_signature@,
            res.subject_signature_view() == subject_signature@,
            res.object_signature_view() == object_signature@,
            res.signatures_view() == joined_signatures(
                event_signature@,
                subject_signature@,
                object_signature@,
            ),
    {
        let sep = "\0";
        proof {
            reveal_strlit("\0");
        }
        let mut text = String::from_str(event_signature);
        text.append(sep);
        text.append(subject_signature);
        text.append(sep);
        text.append(object_signature);

        let subject_start = event_signature.unicode_len() + 1;
        let object_start = subject_start + subject_signature.unicode_len() + 1;
        let ghost e = event_signature@;
        let ghost s = subject_signature@;
        let ghost o = object_signature@;
        assert(text@ == joined_signatures(e, s, o));
        assert(text@.subrange(0, subject_start - 1) =~= e);
        assert(text@.subrange(subject_start as int, object_start - 1) =~= s);
        assert(text@.subrange(object_start as int, text@.len() as int) =~= o);
        let total_len = object_start + object_signature.unicode_len();
        let signatures = Signatures { text, subject_start, object_start, total_len };
        InputEvent { timestamp, event_id, subject_id, object_id, signatures }
    }

    /// Returns the signature of this event, of the subject entity and of the object entity
    /// concatenated into a single string, separated by the `'\0'` character.
    pub fn get_signatures(&self) -> (res: &str)
        ensures
            res@ == self.signatures_view(),
    {
        proof {
            use_type_invariant(&self.signatures);
        }
        self.signatures.text.as_str().substring_char(0, self.signatures.total_len)
    }

    pub fn get_event_signature(&self) -> (res: &str)
        ensures
            res@ == self.event_signature_view(),
    {
        proof {
            use_type_invariant(&self.signatures);
        }
        self.signatures.text.as_str().substring_char(0, self.signatures.subject_start - 1)
    }

    pub fn get_subject_signature(&self) -> (res: &str)
        ensures
            res@ == self.subject_signature_view(),
    {
        proof {
            use_type_invariant(&self.signatures);
        }
        self.signatures.text.as_str().substring_char(
            self.signatures.subject_start,
            self.signatures.object_start - 1,
        )
    }

    pub fn get_object_signature(&self) -> (res: &str)
        ensures
            res@ == self.object_signature_view(),
    {
        proof {
            use_type_invariant(&self.signatures);
        }
        self.signatures.text.as_str().substring_char(
            self.signatures.object_start,
            self.signatures.total_len,
        )
    }
}

/// Two input events are the same event when their ids are equal.
impl PartialEq for InputEvent {
    fn eq(&self, other: &Self) -> (res: bool) {
        self.event_id == other.event_id
    }
}

impl vstd::std_specs::cmp::PartialEqSpecImpl for InputEvent {
    open spec fn obeys_eq_spec() -> bool {
        true
    }

    open spec fn eq_spec(&self, other: &InputEvent) -> bool {
        self.event_id == other.event_id
    }
}

/// A shared input event that compares by its id alone.
#[derive(Clone, Debug)]
pub struct IdSensitiveInputEvent(pub Rc<InputEvent>);

impl IdSensitiveInputEvent {
    /// The input event.
    pub open spec fn event(&self) -> InputEvent {
        *self.0
    }

    /// The input event behind the wrapper.
    pub fn get(&self) -> (res: &InputEvent)
        ensures
            *res == self.event(),
    {
        &self.0
    }

    /// Gives back the shared input event.
    pub fn into_inner(self) -> (res: Rc<InputEvent>)
        ensures
            *res == self.event(),
    {
        self.0
    }
}

impl PartialEq for IdSensitiveInputEvent {
    fn eq(&self, other: &Self) -> (res: bool) {
        self.0.event_id == other.0.event_id
    }
}

impl vstd::std_specs::cmp::PartialEqSpecImpl for IdSensitiveInputEvent {
    open spec fn obeys_eq_spec() -> bool {
        true
    }

    open spec fn eq_spec(&self, other: &IdSensitiveInputEvent) -> bool {
        self.event().event_id == other.event().event_id
    }
}

impl Eq for IdSensitiveInputEvent {
}

impl From<Rc<InputEvent>> for IdSensitiveInputEvent {
    fn from(value: Rc<InputEvent>) -> (res: Self) {
        IdSensitiveInputEvent(value)
    }
}

impl vstd::std_specs::convert::FromSpecImpl<Rc<InputEvent>> for IdSensitiveInputEvent {
    open spec fn obeys_from_spec() -> bool {
        true
    }

    open spec fn from_spec(v: Rc<InputEvent>) -> IdSensitiveInputEvent {
        IdSensitiveInputEvent(v)
    }
}

} // verus!
