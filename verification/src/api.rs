//! The data model of Gong's `/v2/calls/extensive` and `/v2/calls/transcript`
//! responses, as the renderer and the sync planner read it.
use vstd::prelude::*;
use crate::text::str_eq;

verus! {

/// Paging information of one extensive-call page.
#[derive(Debug, Clone, Default)]
pub struct Records {
    pub total_records: usize,
    pub current_page_size: usize,
    pub current_page_number: usize,
    pub cursor: Option<String>,
}

/// One page of `/v2/calls/extensive`.
#[derive(Debug, Clone)]
pub struct ExtensiveResponse {
    pub records: Records,
    pub calls: Vec<ExtensiveCall>,
}

/// One Call with its Parties, CRM context and Spotlight content.
#[derive(Debug, Clone)]
pub struct ExtensiveCall {
    pub metadata: CallMetadata,
    pub parties: Vec<Party>,
    pub context: Vec<CrmContext>,
    pub content: Option<CallContent>,
}

/// Call metadata.  Call ids are strings end to end: 19-digit ids exceed the
/// range in which a double can hold an integer exactly.
#[derive(Debug, Clone)]
pub struct CallMetadata {
    pub id: String,
    pub title: String,
    pub started: String,
    pub duration: u64,
    pub primary_user_id: Option<String>,
    pub system: Option<String>,
    pub url: Option<String>,
}

/// A participant of a Call.
#[derive(Debug, Clone)]
pub struct Party {
    pub id: Option<String>,
    pub name: Option<String>,
    pub email_address: Option<String>,
    pub title: Option<String>,
    pub affiliation: String,
    pub speaker_id: Option<String>,
    pub user_id: Option<String>,
}

/// CRM context attached to a Call.
#[derive(Debug, Clone)]
pub struct CrmContext {
    pub objects: Vec<CrmObject>,
}

/// One CRM object (an Account, an Opportunity, ...).
#[derive(Debug, Clone)]
pub struct CrmObject {
    pub object_type: String,
    pub fields: Vec<CrmField>,
}

/// One CRM field.  `value` is the field's value when the payload holds a
/// JSON string there, and `None` for any other JSON value.
#[derive(Debug, Clone)]
pub struct CrmField {
    pub name: String,
    pub value: Option<String>,
}

/// Spotlight content of a Call.
#[derive(Debug, Clone)]
pub struct CallContent {
    pub brief: Option<String>,
    pub key_points: Option<Vec<TextItem>>,
    pub highlights: Option<Vec<Highlight>>,
    pub outline: Option<Vec<OutlineSection>>,
}

/// A key point.
#[derive(Debug, Clone)]
pub struct TextItem {
    pub text: String,
}

/// A titled group of Spotlight highlights ("Next steps", ...).
#[derive(Debug, Clone)]
pub struct Highlight {
    pub title: String,
    pub items: Vec<HighlightItem>,
}

/// One highlight.
#[derive(Debug, Clone)]
pub struct HighlightItem {
    pub text: String,
}

/// One section of Gong's outline.  `start_ms` is the section's start in whole
/// milliseconds (Gong sends fractional seconds; the client rounds them up to
/// the millisecond, so that a Turn at `ms` belongs to the section exactly when
/// the section's start is at most `ms`).
#[derive(Debug, Clone)]
pub struct OutlineSection {
    pub section: String,
    pub start_ms: Option<i64>,
    pub items: Vec<OutlineItem>,
}

/// One item of an outline section.
#[derive(Debug, Clone)]
pub struct OutlineItem {
    pub text: String,
}

/// One page of `/v2/calls/transcript`.
#[derive(Debug, Clone)]
pub struct TranscriptResponse {
    pub call_transcripts: Vec<CallTranscript>,
}

/// The transcript of one Call.
#[derive(Debug, Clone)]
pub struct CallTranscript {
    pub call_id: String,
    pub transcript: Vec<TranscriptEntry>,
}

/// A monologue of one speaker.
#[derive(Debug, Clone)]
pub struct TranscriptEntry {
    pub speaker_id: String,
    pub topic: Option<String>,
    pub sentences: Vec<Sentence>,
}

/// One sentence; times are milliseconds from the start of the Call.
#[derive(Debug, Clone)]
pub struct Sentence {
    pub start: u64,
    pub end: u64,
    pub text: String,
}

/// Whether a Party is affiliated Internal.
pub open spec fn is_internal(p: Party) -> bool {
    p.affiliation@ == "Internal"@
}

/// A Customer Call is any Call with at least one Party that is not Internal;
/// a Call without Parties counts as Internal.
pub open spec fn spec_is_customer_call(call: ExtensiveCall) -> bool {
    exists|i: int| 0 <= i < call.parties@.len() && !is_internal(#[trigger] call.parties@[i])
}

/// The first object of type `Account` in a list of CRM objects.
pub open spec fn first_account_object(objects: Seq<CrmObject>) -> Option<CrmObject>
    decreases objects.len(),
{
    if objects.len() == 0 {
        None
    } else if objects[0].object_type@ == "Account"@ {
        Some(objects[0])
    } else {
        first_account_object(objects.drop_first())
    }
}

/// The first object of type `Account` over all CRM contexts, in order.
pub open spec fn first_account(contexts: Seq<CrmContext>) -> Option<CrmObject>
    decreases contexts.len(),
{
    if contexts.len() == 0 {
        None
    } else {
        match first_account_object(contexts[0].objects@) {
            Some(o) => Some(o),
            None => first_account(contexts.drop_first()),
        }
    }
}

/// The first field called `Name`.
pub open spec fn first_name_field(fields: Seq<CrmField>) -> Option<CrmField>
    decreases fields.len(),
{
    if fields.len() == 0 {
        None
    } else if fields[0].name@ == "Name"@ {
        Some(fields[0])
    } else {
        first_name_field(fields.drop_first())
    }
}

/// The Account name of a Call: the string value of the `Name` field of the
/// first `Account` object; absent when there is no such object, when that
/// object has no `Name` field, or when the value is not a string.
pub open spec fn spec_account_name(call: ExtensiveCall) -> Option<Seq<char>> {
    match first_account(call.context@) {
        None => None,
        Some(o) => match first_name_field(o.fields@) {
            None => None,
            Some(f) => match f.value {
                Some(v) => Some(v@),
                None => None,
            },
        },
    }
}

/// The first Party whose user id is `user_id`.
pub open spec fn first_party_with_user(parties: Seq<Party>, user_id: Seq<char>) -> Option<Party>
    decreases parties.len(),
{
    if parties.len() == 0 {
        None
    } else if parties[0].user_id matches Some(u) && u@ == user_id {
        Some(parties[0])
    } else {
        first_party_with_user(parties.drop_first(), user_id)
    }
}

/// The host of a Call: the name of the first Party whose user id is the
/// Call's primary user id.
pub open spec fn spec_host_name(call: ExtensiveCall) -> Option<Seq<char>> {
    match call.metadata.primary_user_id {
        None => None,
        Some(uid) => match first_party_with_user(call.parties@, uid@) {
            None => None,
            Some(p) => match p.name {
                Some(n) => Some(n@),
                None => None,
            },
        },
    }
}

/// The view of an optional string.
pub open spec fn opt_view(s: Option<String>) -> Option<Seq<char>> {
    match s {
        Some(v) => Some(v@),
        None => None,
    }
}

/// Whether two optional strings hold the same text.
pub fn opt_str_eq(a: &Option<String>, b: &str) -> (r: bool)
    ensures
        r == (a matches Some(v) && v@ == b@),
{
    match a {
        Some(v) => str_eq(v.as_str(), b),
        None => false,
    }
}

impl ExtensiveCall {
    /// Whether this is a Customer Call: some Party is not Internal.  Phone
    /// participants that Gong cannot match carry the Unknown affiliation and
    /// keep a Call in scope.
    pub fn is_customer_call(&self) -> (r: bool)
        ensures
            r == spec_is_customer_call(*self),
    {
        let mut i: usize = 0;
        while i < self.parties.len()
            invariant
                i <= self.parties.len(),
                forall|j: int| 0 <= j < i ==> is_internal(#[trigger] self.parties@[j]),
            decreases self.parties.len() - i,
        {
            if !str_eq(self.parties[i].affiliation.as_str(), "Internal") {
                return true;
            }
            i = i + 1;
        }
        false
    }

    /// The Account name from the CRM context.
    #[verifier::loop_isolation(false)]
    pub fn account_name(&self) -> (r: Option<&str>)
        ensures
            match r {
                Some(v) => spec_account_name(*self) == Some(v@),
                None => spec_account_name(*self) is None,
            },
    {
        let contexts = &self.context;
        let mut ci: usize = 0;
        assert(contexts@.skip(0) =~= contexts@);
        while ci < contexts.len()
            invariant
                ci <= contexts.len(),
                first_account(contexts@) == first_account(contexts@.skip(ci as int)),
            decreases contexts.len() - ci,
        {
            let objects = &contexts[ci].objects;
            let mut oi: usize = 0;
            assert(contexts@.skip(ci as int)[0] == contexts@[ci as int]);
            assert(objects@.skip(0) =~= objects@);
            while oi < objects.len()
                invariant
                    oi <= objects.len(),
                    first_account_object(objects@) == first_account_object(
                        objects@.skip(oi as int),
                    ),
                decreases objects.len() - oi,
            {
                assert(objects@.skip(oi as int)[0] == objects@[oi as int]);
                assert(objects@.skip(oi as int).drop_first() =~= objects@.skip(oi as int + 1));
                if str_eq(objects[oi].object_type.as_str(), "Account") {
                    let fields = &objects[oi].fields;
                    let mut fi: usize = 0;
                    assert(fields@.skip(0) =~= fields@);
                    while fi < fields.len()
                        invariant
                            fi <= fields.len(),
                            first_name_field(fields@) == first_name_field(fields@.skip(fi as int)),
                        decreases fields.len() - fi,
                    {
                        assert(fields@.skip(fi as int)[0] == fields@[fi as int]);
                        assert(fields@.skip(fi as int).drop_first() =~= fields@.skip(
                            fi as int + 1,
                        ));
                        if str_eq(fields[fi].name.as_str(), "Name") {
                            return match &fields[fi].value {
                                Some(v) => Some(v.as_str()),
                                None => None,
                            };
                        }
                        fi = fi + 1;
                    }
                    return None;
                }
                oi = oi + 1;
            }
            assert(contexts@.skip(ci as int).drop_first() =~= contexts@.skip(ci as int + 1));
            ci = ci + 1;
        }
        None
    }

    /// The host's name: the first Party whose user id is the primary user id.
    #[verifier::loop_isolation(false)]
    pub fn host_name(&self) -> (r: Option<&str>)
        ensures
            match r {
                Some(v) => spec_host_name(*self) == Some(v@),
                None => spec_host_name(*self) is None,
            },
    {
        let uid = match &self.metadata.primary_user_id {
            Some(u) => u.as_str(),
            None => return None,
        };
        let parties = &self.parties;
        let mut i: usize = 0;
        assert(parties@.skip(0) =~= parties@);
        while i < parties.len()
            invariant
                i <= parties.len(),
                first_party_with_user(parties@, uid@) == first_party_with_user(
                    parties@.skip(i as int),
                    uid@,
                ),
            decreases parties.len() - i,
        {
            assert(parties@.skip(i as int)[0] == parties@[i as int]);
            assert(parties@.skip(i as int).drop_first() =~= parties@.skip(i as int + 1));
            if opt_str_eq(&parties[i].user_id, uid) {
                return match &parties[i].name {
                    Some(n) => Some(n.as_str()),
                    None => None,
                };
            }
            i = i + 1;
        }
        None
    }
}

} // verus!
