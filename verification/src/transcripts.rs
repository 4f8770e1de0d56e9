//! The Transcripts a full sync fetches in batches before it renders: each
//! result filed under its Call id, a later result for a Call replacing an
//! earlier one, and each taken out once when its Call is rendered.
use vstd::prelude::*;
use crate::api::CallTranscript;
use crate::text::{push_str, str_eq};

verus! {

/// The latest value filed under `id`, if any.
pub open spec fn latest_entry(
    entries: Seq<(String, Option<Result<CallTranscript, String>>)>,
    id: Seq<char>,
) -> Option<Option<Result<CallTranscript, String>>>
    decreases entries.len(),
{
    if entries.len() == 0 {
        None
    } else if entries.last().0@ == id {
        Some(entries.last().1)
    } else {
        latest_entry(entries.drop_last(), id)
    }
}

/// The last Transcript of a batch that belongs to a Call.
pub open spec fn last_transcript_for(transcripts: Seq<CallTranscript>, id: Seq<char>) -> Option<
    CallTranscript,
>
    decreases transcripts.len(),
{
    if transcripts.len() == 0 {
        None
    } else if transcripts.last().call_id@ == id {
        Some(transcripts.last())
    } else {
        last_transcript_for(transcripts.drop_last(), id)
    }
}

/// Fetched Transcripts by Call id: each Call's Transcript, or the error of
/// its individual request.
pub struct TranscriptResults {
    entries: Vec<(String, Option<Result<CallTranscript, String>>)>,
}

/// Filing more entries leaves the latest entry of every other id alone.
proof fn lemma_latest_push(
    entries: Seq<(String, Option<Result<CallTranscript, String>>)>,
    e: (String, Option<Result<CallTranscript, String>>),
    id: Seq<char>,
)
    ensures
        latest_entry(entries.push(e), id) == if e.0@ == id {
            Some(e.1)
        } else {
            latest_entry(entries, id)
        },
{
    assert(entries.push(e).drop_last() =~= entries);
}

/// Removing an entry of one id leaves the latest entry of every other id
/// alone.
proof fn lemma_latest_remove(
    entries: Seq<(String, Option<Result<CallTranscript, String>>)>,
    i: int,
    id: Seq<char>,
)
    requires
        0 <= i < entries.len(),
        entries[i].0@ != id,
    ensures
        latest_entry(entries.remove(i), id) == latest_entry(entries, id),
    decreases entries.len(),
{
    let n = entries.len() - 1;
    if i == n {
        assert(entries.remove(i) =~= entries.drop_last());
    } else {
        let r = entries.remove(i);
        assert(r.last() == entries.last());
        assert(r.drop_last() =~= entries.drop_last().remove(i));
        if entries.last().0@ != id {
            lemma_latest_remove(entries.drop_last(), i, id);
        }
    }
}

impl TranscriptResults {
    /// The result held for a Call: the latest one filed under its id, none
    /// when nothing was filed or it was taken.
    pub closed spec fn lookup(&self, id: Seq<char>) -> Option<Result<CallTranscript, String>> {
        match latest_entry(self.entries@, id) {
            Some(v) => v,
            None => None,
        }
    }

    /// No result yet.
    pub fn new() -> (r: TranscriptResults)
        ensures
            forall|id: Seq<char>| #[trigger] r.lookup(id) is None,
    {
        TranscriptResults { entries: Vec::new() }
    }

    /// Files one Call's result.
    pub fn record_one(&mut self, call_id: String, result: Result<CallTranscript, String>)
        ensures
            forall|id: Seq<char>|
                #[trigger] final(self).lookup(id) == if id == call_id@ {
                    Some(result)
                } else {
                    old(self).lookup(id)
                },
    {
        let ghost before = self.entries@;
        let ghost e = (call_id, Some(result));
        self.entries.push((call_id, Some(result)));
        assert forall|id: Seq<char>| #[trigger] self.lookup(id) == if id == e.0@ {
            Some(result)
        } else {
            old(self).lookup(id)
        } by {
            lemma_latest_push(before, e, id);
        }
    }

    /// Files the Transcripts of a successful batch request, each under its
    /// Call id.
    pub fn record_batch(&mut self, transcripts: Vec<CallTranscript>)
        ensures
            forall|id: Seq<char>|
                #[trigger] final(self).lookup(id) == match last_transcript_for(transcripts@, id) {
                    Some(t) => Some(Ok(t)),
                    None => old(self).lookup(id),
                },
    {
        let ghost all = transcripts@;
        let ghost start = *self;
        let mut transcripts = transcripts;
        let mut pending: Vec<CallTranscript> = Vec::new();
        // Reverse the batch so that popping files it in its own order.
        let count = transcripts.len();
        assert(all.len() == count);
        assert(pending@.reverse() =~= Seq::<CallTranscript>::empty());
        assert(all =~= transcripts@ + pending@.reverse());
        while transcripts.len() > 0
            invariant
                all == transcripts@ + pending@.reverse(),
                all.len() <= usize::MAX,
            decreases transcripts.len(),
        {
            let ghost before = pending@;
            let ghost rest = transcripts@;
            let t = transcripts.pop().unwrap();
            assert(rest =~= transcripts@.push(t));
            pending.push(t);
            assert(pending@.reverse() =~= seq![t] + before.reverse());
            assert(all =~= transcripts@ + pending@.reverse());
        }
        assert(all =~= pending@.reverse());
        assert(all.skip(0) =~= all);
        let mut filed: usize = 0;
        while pending.len() > 0
            invariant
                pending@.reverse() == all.skip(filed as int),
                filed <= all.len(),
                all.len() <= usize::MAX,
                pending.len() + filed == all.len(),
                forall|id: Seq<char>|
                    #[trigger] self.lookup(id) == match last_transcript_for(all.take(filed as int), id) {
                        Some(t) => Some(Ok(t)),
                        None => start.lookup(id),
                    },
            decreases pending.len(),
        {
            let ghost before = pending@;
            let t = pending.pop().unwrap();
            assert(before =~= pending@.push(t));
            assert(before.reverse() =~= seq![t] + pending@.reverse());
            assert(all.skip(filed as int)[0] == t);
            assert(all[filed as int] == t);
            assert(all.take(filed as int + 1) =~= all.take(filed as int).push(t));
            assert(all.take(filed as int + 1).drop_last() =~= all.take(filed as int));
            let id = t.call_id.clone();
            self.record_one(id, Ok(t));
            assert(all.skip(filed as int + 1) =~= all.skip(filed as int).drop_first());
            filed = filed + 1;
        }
        assert(all.take(all.len() as int) =~= all);
    }

    /// Files the outcome of one batch request and says which Call ids to
    /// request alone: a successful batch is filed and nothing is retried; a
    /// failed one files nothing and every id of the batch is retried alone.
    pub fn record_batch_outcome(
        &mut self,
        batch: &Vec<String>,
        outcome: Result<Vec<CallTranscript>, String>,
    ) -> (retry: Vec<String>)
        ensures
            match outcome {
                Ok(transcripts) => {
                    &&& retry@.len() == 0
                    &&& forall|id: Seq<char>|
                        #[trigger] final(self).lookup(id) == match last_transcript_for(transcripts@, id) {
                            Some(t) => Some(Ok(t)),
                            None => old(self).lookup(id),
                        }
                },
                Err(_) => {
                    &&& retry@.map_values(|s: String| s@) == batch@.map_values(|s: String| s@)
                    &&& forall|id: Seq<char>| #[trigger] final(self).lookup(id) == old(self).lookup(id)
                },
            },
    {
        match outcome {
            Ok(transcripts) => {
                self.record_batch(transcripts);
                Vec::new()
            },
            Err(_) => {
                let mut retry: Vec<String> = Vec::new();
                let mut i: usize = 0;
                while i < batch.len()
                    invariant
                        i <= batch.len(),
                        retry@.map_values(|s: String| s@) == batch@.take(i as int).map_values(|s: String| s@),
                    decreases batch.len() - i,
                {
                    let ghost before = retry@;
                    retry.push(batch[i].clone());
                    assert(batch@.take(i as int + 1) =~= batch@.take(i as int).push(batch@[i as int]));
                    assert(retry@.map_values(|s: String| s@) =~= before.map_values(|s: String| s@).push(batch@[i as int]@));
                    assert(batch@.take(i as int + 1).map_values(|s: String| s@) =~= batch@.take(i as int).map_values(|s: String| s@).push(batch@[i as int]@));
                    i = i + 1;
                }
                assert(batch@.take(batch.len() as int) =~= batch@);
                retry
            },
        }
    }

    /// Takes a Call's result out: what was held for it, after which nothing
    /// is; the results of other Calls stay.
    #[verifier::loop_isolation(false)]
    pub fn take(&mut self, call_id: &str) -> (r: Option<Result<CallTranscript, String>>)
        ensures
            r == old(self).lookup(call_id@),
            final(self).lookup(call_id@) is None,
            forall|id: Seq<char>| id != call_id@ ==> #[trigger] final(self).lookup(id) == old(
                self,
            ).lookup(id),
    {
        let ghost e0 = self.entries@;
        let mut k: usize = self.entries.len();
        assert(e0.take(k as int) =~= e0);
        while k > 0
            invariant
                k <= self.entries.len(),
                self.entries@ == e0,
                latest_entry(e0, call_id@) == latest_entry(e0.take(k as int), call_id@),
            decreases k,
        {
            assert(e0.take(k as int).drop_last() =~= e0.take(k as int - 1));
            assert(e0.take(k as int).last() == e0[k - 1]);
            if str_eq(self.entries[k - 1].0.as_str(), call_id) {
                break;
            }
            k = k - 1;
        }
        let mut key = String::new();
        push_str(&mut key, call_id);
        let result = if k > 0 {
            let (_, value) = self.entries.remove(k - 1);
            proof {
                assert forall|id: Seq<char>| id != call_id@ implies latest_entry(
                    e0.remove(k - 1),
                    id,
                ) == latest_entry(e0, id) by {
                    lemma_latest_remove(e0, k - 1, id);
                }
            }
            value
        } else {
            None
        };
        let ghost mid = self.entries@;
        let ghost tomb = (key, None::<Result<CallTranscript, String>>);
        self.entries.push((key, None));
        assert forall|id: Seq<char>| id != call_id@ implies #[trigger] self.lookup(id) == old(
            self,
        ).lookup(id) by {
            lemma_latest_push(mid, tomb, id);
        }
        proof {
            lemma_latest_push(mid, tomb, call_id@);
        }
        result
    }
}

} // verus!
