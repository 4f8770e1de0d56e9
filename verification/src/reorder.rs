//! The order in which Gong lists Parties and Calls does not reach the
//! output: a Call File's contacts are sorted and its host and speaker names
//! are looked up by id, and a sync plan sorts the Calls by start.
use vstd::prelude::*;
use crate::api::{
    first_party_with_user, is_internal, opt_view, spec_host_name, spec_is_customer_call,
    ExtensiveCall, Party, TranscriptEntry,
};
use crate::dates::spec_parse_rfc3339;
use crate::sync::{
    first_unparsable, insert_timed_call, orphans_of, planned_names, planned_operations,
    select_customer, sort_timed_calls,
    sorted_customer_calls, timed_le, with_starts, ExistingFile, Timed,
};
use crate::order::{
    lemma_chars_order_equal, lemma_chars_order_flip, lemma_chars_order_strict,
    lemma_chars_order_trans, lemma_sorted_images, sorted_by, ties_agree, tied, total_preorder,
};
use crate::renderer::{
    body, chars_order, contact_lines, frontmatter, insert_party, metadata_lines, or_empty,
    party_entries, party_entry, party_le, party_list, select_parties, sort_parties,
    speaker_name_of, spec_markdown, spec_turns, MergedCall,
};

verus! {

broadcast use vstd::seq_lib::group_to_multiset_ensures;

/// Party order as a closure.
pub open spec fn party_order() -> spec_fn(Party, Party) -> bool {
    |a: Party, b: Party| party_le(a, b)
}

/// Ordering Parties by name, then email, is a total preorder.
pub proof fn lemma_party_order_total()
    ensures
        total_preorder(party_order()),
{
    let le = party_order();
    assert forall|x: Party, y: Party| #[trigger] le(x, y) || le(y, x) by {
        lemma_chars_order_flip(or_empty(x.name), or_empty(y.name));
        lemma_chars_order_flip(or_empty(x.email_address), or_empty(y.email_address));
    }
    assert forall|x: Party, y: Party, z: Party| #[trigger] le(x, y) && #[trigger] le(y, z) implies le(
        x,
        z,
    ) by {
        let (nx, ny, nz) = (or_empty(x.name), or_empty(y.name), or_empty(z.name));
        let (ex, ey, ez) = (
            or_empty(x.email_address),
            or_empty(y.email_address),
            or_empty(z.email_address),
        );
        lemma_chars_order_equal(nx, ny);
        lemma_chars_order_equal(ny, nz);
        if chars_order(nx, ny) < 0 || chars_order(ny, nz) < 0 {
            lemma_chars_order_strict(nx, ny, nz);
        } else {
            assert(nx == ny && ny == nz);
            lemma_chars_order_equal(nx, nz);
            lemma_chars_order_trans(ex, ey, ez);
        }
    }
}

/// Inserting a Party into a sorted list keeps it sorted and adds exactly
/// that Party.
proof fn lemma_insert_party(sorted: Seq<Party>, p: Party)
    requires
        total_preorder(party_order()),
        sorted_by(sorted, party_order()),
    ensures
        sorted_by(insert_party(sorted, p), party_order()),
        insert_party(sorted, p).to_multiset() == sorted.to_multiset().insert(p),
    decreases sorted.len(),
{
    let le = party_order();
    let r = insert_party(sorted, p);
    if sorted.len() == 0 {
        assert(r =~= Seq::<Party>::empty().push(p));
    } else if party_le(sorted.last(), p) {
        assert(r =~= sorted.push(p));
        assert forall|i: int, j: int| 0 <= i < j < r.len() implies #[trigger] le(r[i], r[j]) by {
            if j == sorted.len() {
                if i < sorted.len() - 1 {
                    assert(le(sorted[i], sorted[sorted.len() - 1]));
                }
                assert(le(sorted.last(), p));
            } else {
                assert(le(sorted[i], sorted[j]));
            }
        }
    } else {
        let init = sorted.drop_last();
        let last = sorted.last();
        assert(sorted =~= init.push(last));
        assert(sorted_by(init, le)) by {
            assert forall|i: int, j: int| 0 <= i < j < init.len() implies #[trigger] le(init[i], init[j]) by {
                assert(le(sorted[i], sorted[j]));
            }
        }
        lemma_insert_party(init, p);
        let q = insert_party(init, p);
        assert(r =~= q.push(last));
        assert(le(p, last)) by {
            assert(le(last, p) || le(p, last));
        }
        assert forall|z: Party| q.contains(z) implies le(z, last) by {
            assert(q.to_multiset().count(z) > 0);
            if z != p {
                assert(init.to_multiset().count(z) > 0);
                assert(init.contains(z));
                let k = choose|k: int| 0 <= k < init.len() && init[k] == z;
                assert(le(sorted[k], sorted[sorted.len() - 1]));
            }
        }
        assert forall|i: int, j: int| 0 <= i < j < r.len() implies #[trigger] le(r[i], r[j]) by {
            if j == q.len() {
                assert(q.contains(q[i]));
            } else {
                assert(le(q[i], q[j]));
            }
        }
    }
}

/// Sorting Parties gives a sorted list of the same Parties.
pub proof fn lemma_sort_parties(ps: Seq<Party>)
    ensures
        sorted_by(sort_parties(ps), party_order()),
        sort_parties(ps).to_multiset() == ps.to_multiset(),
    decreases ps.len(),
{
    lemma_party_order_total();
    if ps.len() > 0 {
        let init = ps.drop_last();
        lemma_sort_parties(init);
        lemma_insert_party(sort_parties(init), ps.last());
        assert(ps =~= init.push(ps.last()));
    }
}

/// Selecting an affiliation group keeps each Party of that group as often
/// as it occurs.
proof fn lemma_select_count(ps: Seq<Party>, internal: bool, x: Party)
    ensures
        select_parties(ps, internal).to_multiset().count(x) == if is_internal(x) == internal {
            ps.to_multiset().count(x)
        } else {
            0
        },
    decreases ps.len(),
{
    if ps.len() > 0 {
        let init = ps.drop_last();
        lemma_select_count(init, internal, x);
        assert(ps =~= init.push(ps.last()));
        if is_internal(ps.last()) == internal {
            assert(select_parties(ps, internal) == select_parties(init, internal).push(ps.last()));
        }
    }
}

/// The same Parties in another order select the same group members.
proof fn lemma_select_same(a: Seq<Party>, b: Seq<Party>, internal: bool)
    requires
        a.to_multiset() == b.to_multiset(),
    ensures
        select_parties(a, internal).to_multiset() == select_parties(b, internal).to_multiset(),
{
    assert forall|x: Party| #[trigger] select_parties(a, internal).to_multiset().count(x)
        == select_parties(b, internal).to_multiset().count(x) by {
        lemma_select_count(a, internal, x);
        lemma_select_count(b, internal, x);
    }
    assert(select_parties(a, internal).to_multiset() =~= select_parties(b, internal).to_multiset());
}

/// Lists whose Parties render the same entries render the same list.
proof fn lemma_party_entries_images(s: Seq<Party>, t: Seq<Party>)
    requires
        s.map_values(|p: Party| party_entry(p)) == t.map_values(|p: Party| party_entry(p)),
    ensures
        party_entries(s) == party_entries(t),
    decreases s.len(),
{
    assert(s.len() == s.map_values(|p: Party| party_entry(p)).len());
    assert(t.len() == t.map_values(|p: Party| party_entry(p)).len());
    if s.len() > 0 {
        let n = s.len() - 1;
        assert(s.drop_last().map_values(|p: Party| party_entry(p)) =~= s.map_values(
            |p: Party| party_entry(p),
        ).drop_last());
        assert(t.drop_last().map_values(|p: Party| party_entry(p)) =~= t.map_values(
            |p: Party| party_entry(p),
        ).drop_last());
        lemma_party_entries_images(s.drop_last(), t.drop_last());
        assert(s.map_values(|p: Party| party_entry(p))[n] == party_entry(s.last()));
        assert(t.map_values(|p: Party| party_entry(p))[n] == party_entry(t.last()));
    }
}

/// Parties of one group that tie in name and email render the same entry.
pub open spec fn group_ties_render_alike(ps: Seq<Party>) -> bool {
    forall|p: Party, q: Party|
        ps.contains(p) && ps.contains(q) && is_internal(p) == is_internal(q) && #[trigger] party_le(
            p,
            q,
        ) && #[trigger] party_le(q, p) ==> party_entry(p) == party_entry(q)
}

/// A member of a sorted group is a Party of that group.
proof fn lemma_member_of_group(a: Seq<Party>, internal: bool, x: Party)
    requires
        sort_parties(select_parties(a, internal)).contains(x),
    ensures
        a.contains(x),
        is_internal(x) == internal,
{
    let sa = select_parties(a, internal);
    let s = sort_parties(sa);
    lemma_sort_parties(sa);
    assert(s.to_multiset().count(x) > 0);
    assert(sa.to_multiset().count(x) > 0);
    lemma_select_count(a, internal, x);
    assert(a.to_multiset().count(x) > 0);
}

/// The contact lists do not depend on the order of the Parties.
proof fn lemma_contacts_same(a: Seq<Party>, b: Seq<Party>, internal: bool)
    requires
        a.to_multiset() == b.to_multiset(),
        group_ties_render_alike(a),
    ensures
        party_entries(sort_parties(select_parties(a, internal))) == party_entries(
            sort_parties(select_parties(b, internal)),
        ),
        sort_parties(select_parties(a, internal)).len() == sort_parties(
            select_parties(b, internal),
        ).len(),
{
    lemma_party_order_total();
    let sa = select_parties(a, internal);
    let sb = select_parties(b, internal);
    lemma_select_same(a, b, internal);
    lemma_sort_parties(sa);
    lemma_sort_parties(sb);
    let s = sort_parties(sa);
    let t = sort_parties(sb);
    let f = |p: Party| party_entry(p);
    assert(ties_agree(s, party_order(), f)) by {
        assert forall|x: Party, y: Party| s.contains(x) && s.contains(y) && #[trigger] tied(
            party_order(),
            x,
            y,
        ) implies f(x) == f(y) by {
            assert(party_le(x, y) && party_le(y, x));
            lemma_member_of_group(a, internal, x);
            lemma_member_of_group(a, internal, y);
            assert(party_entry(x) == party_entry(y));
        }
    }
    lemma_sorted_images(s, t, party_order(), f);
    lemma_party_entries_images(s, t);
    assert(s.len() == s.to_multiset().len());
    assert(t.len() == t.to_multiset().len());
}

/// Whether a Party carries this user id.
pub open spec fn has_user(p: Party, uid: Seq<char>) -> bool {
    p.user_id matches Some(u) && u@ == uid
}

/// The first Party with a user id is one of the Parties and carries it;
/// there is none when no Party carries it.
proof fn lemma_first_party_with_user(ps: Seq<Party>, uid: Seq<char>)
    ensures
        match first_party_with_user(ps, uid) {
            Some(p) => ps.contains(p) && has_user(p, uid),
            None => forall|p: Party| ps.contains(p) ==> !has_user(p, uid),
        },
    decreases ps.len(),
{
    if ps.len() > 0 {
        let rest = ps.drop_first();
        lemma_first_party_with_user(rest, uid);
        assert(ps =~= seq![ps[0]] + rest);
        if has_user(ps[0], uid) {
            assert(ps.contains(ps[0]));
        } else {
            match first_party_with_user(rest, uid) {
                Some(p) => {
                    let k = choose|k: int| 0 <= k < rest.len() && rest[k] == p;
                    assert(ps[k + 1] == p);
                },
                None => {
                    assert forall|p: Party| ps.contains(p) implies !has_user(p, uid) by {
                        let k = choose|k: int| 0 <= k < ps.len() && ps[k] == p;
                        if k > 0 {
                            assert(rest[k - 1] == p);
                        }
                    }
                },
            }
        }
    }
}

/// Parties that carry the primary user id have the same name.
pub open spec fn host_named_alike(ps: Seq<Party>, primary: Option<String>) -> bool {
    match primary {
        Some(u) => forall|p: Party, q: Party|
            ps.contains(p) && ps.contains(q) && #[trigger] has_user(p, u@) && #[trigger] has_user(
                q,
                u@,
            ) ==> opt_view(p.name) == opt_view(q.name),
        None => true,
    }
}

/// Whether a Party carries this speaker id and a name.
pub open spec fn named_speaker(p: Party, speaker_id: Seq<char>) -> bool {
    p.speaker_id matches Some(s) && s@ == speaker_id && p.name is Some
}

/// The name found for a speaker belongs to a named Party with that speaker
/// id; there is none when no such Party exists.
proof fn lemma_speaker_name_of(ps: Seq<Party>, id: Seq<char>)
    ensures
        match speaker_name_of(ps, id) {
            Some(n) => exists|p: Party| ps.contains(p) && #[trigger] named_speaker(p, id) && p.name->0@
                == n,
            None => forall|p: Party| ps.contains(p) ==> !named_speaker(p, id),
        },
    decreases ps.len(),
{
    if ps.len() > 0 {
        let init = ps.drop_last();
        let last = ps.last();
        lemma_speaker_name_of(init, id);
        assert(ps =~= init.push(last));
        assert(ps.contains(last)) by {
            assert(ps[ps.len() - 1] == last);
        }
        if named_speaker(last, id) {
        } else {
            match speaker_name_of(init, id) {
                Some(n) => {
                    let p = choose|p: Party| init.contains(p) && #[trigger] named_speaker(p, id)
                        && p.name->0@ == n;
                    let k = choose|k: int| 0 <= k < init.len() && init[k] == p;
                    assert(ps[k] == p);
                },
                None => {
                    assert forall|p: Party| ps.contains(p) implies !named_speaker(p, id) by {
                        let k = choose|k: int| 0 <= k < ps.len() && ps[k] == p;
                        if k < init.len() {
                            assert(init[k] == p);
                        }
                    }
                },
            }
        }
    }
}

/// Named Parties that share a speaker id of the Transcript have the same
/// name.
pub open spec fn speakers_named_alike(ps: Seq<Party>, entries: Seq<TranscriptEntry>) -> bool {
    forall|p: Party, q: Party, k: int|
        0 <= k < entries.len() && ps.contains(p) && ps.contains(q) && #[trigger] named_speaker(
            p,
            entries[k].speaker_id@,
        ) && #[trigger] named_speaker(q, entries[k].speaker_id@) ==> p.name->0@ == q.name->0@
}

/// The Turns do not depend on the order of the Parties when each speaker
/// of the Transcript gets the same name either way.
proof fn lemma_turns_same(a: Seq<Party>, b: Seq<Party>, entries: Seq<TranscriptEntry>)
    requires
        forall|k: int|
            0 <= k < entries.len() ==> speaker_name_of(a, #[trigger] entries[k].speaker_id@)
                == speaker_name_of(b, entries[k].speaker_id@),
    ensures
        spec_turns(a, entries) == spec_turns(b, entries),
    decreases entries.len(),
{
    if entries.len() > 0 {
        let init = entries.drop_last();
        assert forall|k: int| 0 <= k < init.len() implies speaker_name_of(
            a,
            #[trigger] init[k].speaker_id@,
        ) == speaker_name_of(b, init[k].speaker_id@) by {
            assert(init[k] == entries[k]);
        }
        lemma_turns_same(a, b, init);
        assert(entries.last() == entries[entries.len() - 1]);
    }
}

/// The conditions under which the order of a Call's Parties cannot show in
/// its Call File: Parties sharing the primary user id have one name, named
/// Parties sharing a speaker id of the Transcript have one name, and Parties
/// of one affiliation group that tie in name and email render alike.
pub open spec fn parties_order_free(
    ps: Seq<Party>,
    primary: Option<String>,
    entries: Seq<TranscriptEntry>,
) -> bool {
    &&& host_named_alike(ps, primary)
    &&& speakers_named_alike(ps, entries)
    &&& group_ties_render_alike(ps)
}

/// Reordering a Call's Parties does not change its Call File: two merged
/// Calls that differ only in the order of their Parties render the same
/// bytes, whenever Parties that the rendering looks up by id agree on their
/// names and Parties that sort alike render alike.
pub proof fn lemma_party_order_does_not_change_the_file(a: MergedCall, b: MergedCall, date: Seq<char>)
    requires
        a.call.metadata == b.call.metadata,
        a.call.context@ == b.call.context@,
        a.call.content == b.call.content,
        a.transcript.transcript@ == b.transcript.transcript@,
        a.call.parties@.to_multiset() == b.call.parties@.to_multiset(),
        parties_order_free(
            a.call.parties@,
            a.call.metadata.primary_user_id,
            a.transcript.transcript@,
        ),
    ensures
        spec_markdown(a, date) == spec_markdown(b, date),
{
    let pa = a.call.parties@;
    let pb = b.call.parties@;
    let entries = a.transcript.transcript@;
    assert forall|x: Party| pa.contains(x) <==> pb.contains(x) by {
        assert(pa.contains(x) <==> pa.to_multiset().count(x) > 0);
        assert(pb.contains(x) <==> pb.to_multiset().count(x) > 0);
    }
    // The host.
    assert(spec_host_name(a.call) == spec_host_name(b.call)) by {
        match a.call.metadata.primary_user_id {
            Some(u) => {
                lemma_first_party_with_user(pa, u@);
                lemma_first_party_with_user(pb, u@);
                match (first_party_with_user(pa, u@), first_party_with_user(pb, u@)) {
                    (Some(p), Some(q)) => {
                        assert(has_user(p, u@) && has_user(q, u@));
                        assert(opt_view(p.name) == opt_view(q.name));
                    },
                    (Some(p), None) => {
                        assert(pb.contains(p));
                    },
                    (None, Some(q)) => {
                        assert(pa.contains(q));
                    },
                    (None, None) => {},
                }
            },
            None => {},
        }
    }
    // The speakers.
    assert forall|k: int| 0 <= k < entries.len() implies speaker_name_of(
        pa,
        #[trigger] entries[k].speaker_id@,
    ) == speaker_name_of(pb, entries[k].speaker_id@) by {
        let id = entries[k].speaker_id@;
        lemma_speaker_name_of(pa, id);
        lemma_speaker_name_of(pb, id);
        match (speaker_name_of(pa, id), speaker_name_of(pb, id)) {
            (Some(n), Some(m)) => {
                let p = choose|p: Party| pa.contains(p) && #[trigger] named_speaker(p, id)
                    && p.name->0@ == n;
                let q = choose|q: Party| pb.contains(q) && #[trigger] named_speaker(q, id)
                    && q.name->0@ == m;
                assert(pa.contains(q));
            },
            (Some(n), None) => {
                let p = choose|p: Party| pa.contains(p) && #[trigger] named_speaker(p, id)
                    && p.name->0@ == n;
                assert(pb.contains(p));
            },
            (None, Some(m)) => {
                let q = choose|q: Party| pb.contains(q) && #[trigger] named_speaker(q, id)
                    && q.name->0@ == m;
                assert(pa.contains(q));
            },
            (None, None) => {},
        }
    }
    lemma_turns_same(pa, pb, entries);
    // The contacts.
    lemma_contacts_same(pa, pb, false);
    lemma_contacts_same(pa, pb, true);
    assert(contact_lines(a.call) == contact_lines(b.call));
    assert(metadata_lines(a.call, date) == metadata_lines(b.call, date));
    assert(frontmatter(a.call, date) == frontmatter(b.call, date));
    assert(body(a.call, spec_turns(pa, entries)) == body(b.call, spec_turns(pb, entries)));
}

// ---------------------------------------------------------------------------
// The order of the listed Calls.

/// Call order (start instant, then id) as a closure.
pub open spec fn call_order() -> spec_fn(Timed, Timed) -> bool {
    |a: Timed, b: Timed| timed_le(a, b)
}

/// Ordering Calls by start, then id, is a total preorder.
pub proof fn lemma_call_order_total()
    ensures
        total_preorder(call_order()),
{
    let le = call_order();
    assert forall|x: Timed, y: Timed| #[trigger] le(x, y) || le(y, x) by {
        lemma_chars_order_flip(x.0.metadata.id@, y.0.metadata.id@);
    }
    assert forall|x: Timed, y: Timed, z: Timed| #[trigger] le(x, y) && #[trigger] le(y, z) implies le(
        x,
        z,
    ) by {
        if x.1.utc_seconds == z.1.utc_seconds && x.1.utc_nanos == z.1.utc_nanos {
            if x.1.utc_seconds == y.1.utc_seconds && x.1.utc_nanos == y.1.utc_nanos {
                lemma_chars_order_trans(x.0.metadata.id@, y.0.metadata.id@, z.0.metadata.id@);
            }
        }
    }
}

/// Inserting a Call into a sorted list keeps it sorted and adds exactly
/// that Call.
proof fn lemma_insert_timed(sorted: Seq<Timed>, x: Timed)
    requires
        total_preorder(call_order()),
        sorted_by(sorted, call_order()),
    ensures
        sorted_by(insert_timed_call(sorted, x), call_order()),
        insert_timed_call(sorted, x).to_multiset() == sorted.to_multiset().insert(x),
    decreases sorted.len(),
{
    let le = call_order();
    let r = insert_timed_call(sorted, x);
    if sorted.len() == 0 {
        assert(r =~= Seq::<Timed>::empty().push(x));
    } else if timed_le(sorted.last(), x) {
        assert(r =~= sorted.push(x));
        assert forall|i: int, j: int| 0 <= i < j < r.len() implies #[trigger] le(r[i], r[j]) by {
            if j == sorted.len() {
                if i < sorted.len() - 1 {
                    assert(le(sorted[i], sorted[sorted.len() - 1]));
                }
                assert(le(sorted.last(), x));
            } else {
                assert(le(sorted[i], sorted[j]));
            }
        }
    } else {
        let init = sorted.drop_last();
        let last = sorted.last();
        assert(sorted =~= init.push(last));
        assert(sorted_by(init, le)) by {
            assert forall|i: int, j: int| 0 <= i < j < init.len() implies #[trigger] le(init[i], init[j]) by {
                assert(le(sorted[i], sorted[j]));
            }
        }
        lemma_insert_timed(init, x);
        let q = insert_timed_call(init, x);
        assert(r =~= q.push(last));
        assert(le(x, last)) by {
            assert(le(last, x) || le(x, last));
        }
        assert forall|z: Timed| q.contains(z) implies le(z, last) by {
            assert(q.to_multiset().count(z) > 0);
            if z != x {
                assert(init.to_multiset().count(z) > 0);
                assert(init.contains(z));
                let k = choose|k: int| 0 <= k < init.len() && init[k] == z;
                assert(le(sorted[k], sorted[sorted.len() - 1]));
            }
        }
        assert forall|i: int, j: int| 0 <= i < j < r.len() implies #[trigger] le(r[i], r[j]) by {
            if j == q.len() {
                assert(q.contains(q[i]));
            } else {
                assert(le(q[i], q[j]));
            }
        }
    }
}

/// Sorting Calls gives a sorted list of the same Calls.
proof fn lemma_sort_timed(xs: Seq<Timed>)
    ensures
        sorted_by(sort_timed_calls(xs), call_order()),
        sort_timed_calls(xs).to_multiset() == xs.to_multiset(),
    decreases xs.len(),
{
    lemma_call_order_total();
    if xs.len() > 0 {
        let init = xs.drop_last();
        lemma_sort_timed(init);
        lemma_insert_timed(sort_timed_calls(init), xs.last());
        assert(xs =~= init.push(xs.last()));
    }
}

/// Selecting the Customer Calls keeps each of them as often as it occurs.
proof fn lemma_select_customer_count(calls: Seq<ExtensiveCall>, c: ExtensiveCall)
    ensures
        select_customer(calls).to_multiset().count(c) == if spec_is_customer_call(c) {
            calls.to_multiset().count(c)
        } else {
            0
        },
    decreases calls.len(),
{
    if calls.len() > 0 {
        let init = calls.drop_last();
        lemma_select_customer_count(init, c);
        assert(calls =~= init.push(calls.last()));
    }
}

/// Pairing Calls with their starts pairs each Call with its own start.
proof fn lemma_with_starts_count(calls: Seq<ExtensiveCall>, x: Timed)
    ensures
        with_starts(calls).to_multiset().count(x) == if x.1 == spec_parse_rfc3339(
            x.0.metadata.started@,
        ).unwrap() {
            calls.to_multiset().count(x.0)
        } else {
            0
        },
    decreases calls.len(),
{
    if calls.len() > 0 {
        let init = calls.drop_last();
        lemma_with_starts_count(init, x);
        assert(calls =~= init.push(calls.last()));
        assert(with_starts(calls) =~= with_starts(init).push(
            (calls.last(), spec_parse_rfc3339(calls.last().metadata.started@).unwrap()),
        ));
    }
}

/// Customer Calls that start at the same instant with the same id are the
/// same Call.
pub open spec fn calls_order_free(calls: Seq<ExtensiveCall>) -> bool {
    forall|c: ExtensiveCall, d: ExtensiveCall|
        calls.contains(c) && calls.contains(d) && spec_is_customer_call(c) && spec_is_customer_call(
            d,
        ) && #[trigger] timed_le(
            (c, spec_parse_rfc3339(c.metadata.started@).unwrap()),
            (d, spec_parse_rfc3339(d.metadata.started@).unwrap()),
        ) && #[trigger] timed_le(
            (d, spec_parse_rfc3339(d.metadata.started@).unwrap()),
            (c, spec_parse_rfc3339(c.metadata.started@).unwrap()),
        ) ==> c == d
}

/// No Call's start fails to parse exactly when every start parses.
proof fn lemma_first_unparsable_none(calls: Seq<ExtensiveCall>)
    ensures
        first_unparsable(calls) is None <==> forall|i: int|
            0 <= i < calls.len() ==> spec_parse_rfc3339(#[trigger] calls[i].metadata.started@) is Some,
    decreases calls.len(),
{
    if calls.len() > 0 {
        let rest = calls.drop_first();
        lemma_first_unparsable_none(rest);
        if spec_parse_rfc3339(calls[0].metadata.started@) is Some {
            if first_unparsable(rest) is None {
                assert forall|i: int| 0 <= i < calls.len() implies spec_parse_rfc3339(
                    #[trigger] calls[i].metadata.started@,
                ) is Some by {
                    if i > 0 {
                        assert(calls[i] == rest[i - 1]);
                    }
                }
            } else {
                let j = choose|j: int|
                    0 <= j < rest.len() && !(spec_parse_rfc3339(
                        #[trigger] rest[j].metadata.started@,
                    ) is Some);
                assert(calls[j + 1] == rest[j]);
            }
        }
    }
}

/// Calls that start at the same instant with the same id are the same Call.
pub open spec fn starts_order_free(calls: Seq<ExtensiveCall>) -> bool {
    forall|c: ExtensiveCall, d: ExtensiveCall|
        calls.contains(c) && calls.contains(d) && #[trigger] timed_le(
            (c, spec_parse_rfc3339(c.metadata.started@).unwrap()),
            (d, spec_parse_rfc3339(d.metadata.started@).unwrap()),
        ) && #[trigger] timed_le(
            (d, spec_parse_rfc3339(d.metadata.started@).unwrap()),
            (c, spec_parse_rfc3339(c.metadata.started@).unwrap()),
        ) ==> c == d
}

/// The order in which the Calls are given does not change their file names:
/// two lists that hold the same Calls fail alike on an unreadable start, and
/// otherwise sort the Calls the same way and give each the same file name,
/// whenever no two different Calls share both their start instant and id.
pub proof fn lemma_call_order_does_not_change_the_names(a: Seq<ExtensiveCall>, b: Seq<ExtensiveCall>)
    requires
        a.to_multiset() == b.to_multiset(),
        starts_order_free(a),
    ensures
        (first_unparsable(a) is None) <==> (first_unparsable(b) is None),
        sort_timed_calls(with_starts(a)) == sort_timed_calls(with_starts(b)),
        planned_names(sort_timed_calls(with_starts(a))).0 == planned_names(
            sort_timed_calls(with_starts(b)),
        ).0,
{
    lemma_first_unparsable_none(a);
    lemma_first_unparsable_none(b);
    assert forall|x: ExtensiveCall| a.contains(x) <==> b.contains(x) by {
        vstd::seq_lib::to_multiset_contains(a, x);
        vstd::seq_lib::to_multiset_contains(b, x);
    }
    if first_unparsable(a) is None {
        assert forall|i: int| 0 <= i < b.len() implies spec_parse_rfc3339(
            #[trigger] b[i].metadata.started@,
        ) is Some by {
            assert(b.contains(b[i]));
            let j = choose|j: int| 0 <= j < a.len() && a[j] == b[i];
            assert(spec_parse_rfc3339(a[j].metadata.started@) is Some);
        }
    }
    if first_unparsable(b) is None {
        assert forall|i: int| 0 <= i < a.len() implies spec_parse_rfc3339(
            #[trigger] a[i].metadata.started@,
        ) is Some by {
            assert(a.contains(a[i]));
            let j = choose|j: int| 0 <= j < b.len() && b[j] == a[i];
            assert(spec_parse_rfc3339(b[j].metadata.started@) is Some);
        }
    }
    let wa = with_starts(a);
    let wb = with_starts(b);
    assert(wa.to_multiset() =~= wb.to_multiset()) by {
        assert forall|x: Timed| #[trigger] wa.to_multiset().count(x) == wb.to_multiset().count(x) by {
            lemma_with_starts_count(a, x);
            lemma_with_starts_count(b, x);
        }
    }
    lemma_call_order_total();
    lemma_sort_timed(wa);
    lemma_sort_timed(wb);
    let sa = sort_timed_calls(wa);
    let sb = sort_timed_calls(wb);
    let f = |x: Timed| x;
    assert(ties_agree(sa, call_order(), f)) by {
        assert forall|x: Timed, y: Timed| sa.contains(x) && sa.contains(y) && #[trigger] tied(
            call_order(),
            x,
            y,
        ) implies f(x) == f(y) by {
            assert(sa.to_multiset().count(x) > 0 && sa.to_multiset().count(y) > 0);
            lemma_with_starts_count(a, x);
            lemma_with_starts_count(a, y);
            vstd::seq_lib::to_multiset_contains(a, x.0);
            vstd::seq_lib::to_multiset_contains(a, y.0);
            assert(a.contains(x.0) && a.contains(y.0));
            assert(timed_le(x, y) && timed_le(y, x));
            assert(x.0 == y.0);
        }
    }
    lemma_sorted_images(sa, sb, call_order(), f);
    assert(sa =~= sa.map_values(f));
    assert(sb =~= sb.map_values(f));
}

/// The order in which Gong lists the Calls does not change the file names
/// of the Customer Calls, whenever no two different Customer Calls share
/// both their start instant and id.
pub proof fn lemma_listing_order_does_not_change_the_names(a: Seq<ExtensiveCall>, b: Seq<ExtensiveCall>)
    requires
        a.to_multiset() == b.to_multiset(),
        calls_order_free(a),
    ensures
        (first_unparsable(select_customer(a)) is None) <==> (first_unparsable(select_customer(b)) is None),
        sorted_customer_calls(a) == sorted_customer_calls(b),
        planned_names(sorted_customer_calls(a)).0 == planned_names(sorted_customer_calls(b)).0,
{
    let ca = select_customer(a);
    let cb = select_customer(b);
    assert(ca.to_multiset() =~= cb.to_multiset()) by {
        assert forall|x: ExtensiveCall| #[trigger] ca.to_multiset().count(x) == cb.to_multiset().count(x) by {
            lemma_select_customer_count(a, x);
            lemma_select_customer_count(b, x);
        }
    }
    assert(starts_order_free(ca)) by {
        assert forall|c: ExtensiveCall, d: ExtensiveCall|
            ca.contains(c) && ca.contains(d) && #[trigger] timed_le(
                (c, spec_parse_rfc3339(c.metadata.started@).unwrap()),
                (d, spec_parse_rfc3339(d.metadata.started@).unwrap()),
            ) && #[trigger] timed_le(
                (d, spec_parse_rfc3339(d.metadata.started@).unwrap()),
                (c, spec_parse_rfc3339(c.metadata.started@).unwrap()),
            ) implies c == d by {
            vstd::seq_lib::to_multiset_contains(ca, c);
            vstd::seq_lib::to_multiset_contains(ca, d);
            vstd::seq_lib::to_multiset_contains(a, c);
            vstd::seq_lib::to_multiset_contains(a, d);
            lemma_select_customer_count(a, c);
            lemma_select_customer_count(a, d);
        }
    }
    lemma_call_order_does_not_change_the_names(ca, cb);
}

/// The order in which Gong lists the Calls does not change the sync plan:
/// two listings that hold the same Calls plan the same operations, in the
/// same order with the same file names, and the same orphans, whenever no
/// two different Customer Calls share both their start instant and id.  So
/// repeated runs over the same Calls converge on the same Output Directory.
pub proof fn lemma_listing_order_does_not_change_the_plan(
    a: Seq<ExtensiveCall>,
    b: Seq<ExtensiveCall>,
    files: Seq<ExistingFile>,
    others: Seq<Seq<char>>,
    force: bool,
    full: bool,
)
    requires
        a.to_multiset() == b.to_multiset(),
        calls_order_free(a),
    ensures
        planned_operations(a, files, others, force) == planned_operations(b, files, others, force),
        orphans_of(planned_operations(a, files, others, force), files, full) == orphans_of(
            planned_operations(b, files, others, force),
            files,
            full,
        ),
{
    lemma_listing_order_does_not_change_the_names(a, b);
}

} // verus!
