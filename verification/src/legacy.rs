//! The decisions of the first download manager, which runs one thread per playlist
//! and a set of download threads fed by messages: how a playlist poll retries, what a
//! download thread does with what it receives, which thread gets a new segment, and
//! how listed segments are de-duplicated without a bound.

use vstd::prelude::*;
use rand::Rng;
use crate::manager::{entry_urls, segment_file_name, DownloadMedia, MediaView, SegmentEntry};
use crate::number::i64_text;
use crate::strings::{push_char, push_str};

verus! {

/// A message to the manager: follow a playlist (output directory, URL), or download a
/// segment (output directory, file name, URL).
pub enum ManageMessage {
    LIST(String, String),
    MEDIA(String, String, String),
}

/// How many failed fetches in a row end a playlist poll.
pub const MAX_RETRY: i32 = 3;

/// One round of a playlist poll: a fetched listing resets the failure count; a failed
/// fetch counts one more and ends the poll once more than `MAX_RETRY` fetches in a row
/// failed. Gives the new count and whether to keep polling.
pub open spec fn poll_step(retry: int, fetched: bool) -> (int, bool) {
    if fetched {
        (0, true)
    } else {
        (retry + 1, retry + 1 <= MAX_RETRY)
    }
}

/// One round of a playlist poll (see `poll_step`).
pub fn list_poll_step(retry: i32, fetched: bool) -> (r: (i32, bool))
    requires
        retry < i32::MAX,
    ensures
        (r.0 as int, r.1) == poll_step(retry as int, fetched),
{
    if fetched {
        (0, true)
    } else {
        let retry = retry + 1;
        (retry, !(retry > MAX_RETRY))
    }
}

/// The poll after a run of fetch outcomes, starting with no failure: the failure count
/// and whether it still polls; once it stops, later outcomes are not taken.
pub open spec fn poll_run(outcomes: Seq<bool>) -> (int, bool)
    decreases outcomes.len(),
{
    if outcomes.len() == 0 {
        (0, true)
    } else {
        let prev = poll_run(outcomes.drop_last());
        if !prev.1 {
            prev
        } else {
            poll_step(prev.0, outcomes.last())
        }
    }
}

/// The number of failures at the end of a run of outcomes.
pub open spec fn trailing_failures(outcomes: Seq<bool>) -> nat
    decreases outcomes.len(),
{
    if outcomes.len() == 0 || outcomes.last() {
        0
    } else {
        trailing_failures(outcomes.drop_last()) + 1
    }
}

/// Some `MAX_RETRY + 1` outcomes in a row are failures.
pub open spec fn has_failure_run(outcomes: Seq<bool>) -> bool {
    exists|k: int| 0 <= k <= outcomes.len() && trailing_failures(#[trigger] outcomes.take(k)) > MAX_RETRY
}

/// A poll keeps going exactly as long as no more than `MAX_RETRY` fetches in a row have
/// failed, and while it goes, its count is the number of failures since the last success.
pub proof fn lemma_poll_stops_on_failure_run(outcomes: Seq<bool>)
    ensures
        poll_run(outcomes).1 <==> !has_failure_run(outcomes),
        poll_run(outcomes).1 ==> poll_run(outcomes).0 == trailing_failures(outcomes),
    decreases outcomes.len(),
{
    if outcomes.len() == 0 {
        assert forall|k: int| 0 <= k <= outcomes.len() implies trailing_failures(#[trigger] outcomes.take(k)) <= MAX_RETRY by {
            assert(outcomes.take(k).len() == 0);
        }
    } else {
        let prev = outcomes.drop_last();
        lemma_poll_stops_on_failure_run(prev);
        assert(outcomes.take(outcomes.len() as int) == outcomes);
        assert forall|k: int| 0 <= k <= prev.len() implies #[trigger] outcomes.take(k) == prev.take(k) by {}
        if has_failure_run(prev) {
            let k = choose|k: int| 0 <= k <= prev.len() && trailing_failures(#[trigger] prev.take(k)) > MAX_RETRY;
            assert(outcomes.take(k) == prev.take(k));
        } else {
            assert(outcomes.drop_last() == prev);
            if has_failure_run(outcomes) {
                let k = choose|k: int| 0 <= k <= outcomes.len() && trailing_failures(#[trigger] outcomes.take(k))
                    > MAX_RETRY;
                if k <= prev.len() {
                    assert(outcomes.take(k) == prev.take(k));
                    assert(trailing_failures(prev.take(k)) > MAX_RETRY);
                }
            }
            if trailing_failures(outcomes) > MAX_RETRY {
                assert(trailing_failures(outcomes.take(outcomes.len() as int)) > MAX_RETRY);
            }
        }
    }
}

/// What a download thread takes from its queue.
pub enum LoopEvent {
    /// A message.
    Message(ManageMessage),
    /// Every sender is gone.
    Disconnected,
    /// Nothing is waiting; the seconds since the thread last worked, when the clock gives them.
    Empty(Option<u64>),
}

/// What a download thread does next.
pub enum LoopAction {
    /// Download a segment (output directory, file name, URL).
    Download(String, String, String),
    /// Take the next event.
    Continue,
    /// End the thread.
    Exit,
}

/// How long a download thread waits idle before it ends, in seconds.
pub const IDLE_LIMIT_SECS: u64 = 60;

/// A download thread's decision on an event: download a segment it is sent, end when
/// its queue is gone or it has been idle for more than `IDLE_LIMIT_SECS` seconds, and
/// otherwise go on (a playlist message is not for it).
pub fn download_loop_step(event: LoopEvent) -> (r: LoopAction)
    ensures
        match event {
            LoopEvent::Message(ManageMessage::MEDIA(o, n, u)) => r == LoopAction::Download(o, n, u),
            LoopEvent::Message(ManageMessage::LIST(_, _)) => r is Continue,
            LoopEvent::Disconnected => r is Exit,
            LoopEvent::Empty(Some(d)) => (r is Exit) == (d > IDLE_LIMIT_SECS),
            LoopEvent::Empty(None) => r is Continue,
        },
        r is Continue || r is Exit || r is Download,
{
    match event {
        LoopEvent::Message(ManageMessage::MEDIA(o, n, u)) => LoopAction::Download(o, n, u),
        LoopEvent::Message(ManageMessage::LIST(_, _)) => LoopAction::Continue,
        LoopEvent::Disconnected => LoopAction::Exit,
        LoopEvent::Empty(Some(d)) => if d > IDLE_LIMIT_SECS {
            LoopAction::Exit
        } else {
            LoopAction::Continue
        },
        LoopEvent::Empty(None) => LoopAction::Continue,
    }
}

/// What becomes of a segment after a download attempt: nothing more when it was written,
/// otherwise it is sent again to the same thread.
pub fn after_download(downloaded: bool, output: String, name: String, url: String) -> (r: Option<ManageMessage>)
    ensures
        downloaded ==> r is None,
        !downloaded ==> r == Some(ManageMessage::MEDIA(output, name, url)),
{
    if downloaded {
        None
    } else {
        Some(ManageMessage::MEDIA(output, name, url))
    }
}

/// Where a new segment goes.
pub enum ThreadChoice {
    /// To the free thread at this position.
    Use(usize),
    /// To a new thread.
    Create,
    /// To the thread at this position, picked at random.
    Random(usize),
}

/// The position of the first free thread.
pub open spec fn first_free(free: Seq<bool>) -> Option<int>
    decreases free.len(),
{
    if free.len() == 0 {
        None
    } else {
        match first_free(free.drop_last()) {
            Some(i) => Some(i),
            None => if free.last() { Some(free.len() - 1) } else { None },
        }
    }
}

/// The first free thread is free and no thread before it is; when there is none, no
/// thread is free.
pub proof fn lemma_first_free(free: Seq<bool>)
    ensures
        first_free(free) matches Some(i) ==> 0 <= i < free.len() && free[i] && forall|k: int|
            0 <= k < i ==> !#[trigger] free[k],
        first_free(free) is None ==> forall|k: int| 0 <= k < free.len() ==> !#[trigger] free[k],
    decreases free.len(),
{
    if free.len() > 0 {
        lemma_first_free(free.drop_last());
        assert forall|k: int| 0 <= k < free.len() - 1 implies free[k] == free.drop_last()[k] by {}
    }
}

/// A number below `n` drawn at random (`rand::Rng::gen_range(0, n)` on the thread's
/// generator). Only the range is stated: the value is random.
#[verifier::external_body]
fn random_below(n: usize) -> (r: usize)
    requires
        n > 0,
    ensures
        r < n,
{
    rand::thread_rng().gen_range(0, n)
}

/// Which thread gets a new segment: the first free one; when none is free, a new thread
/// when there is at most one or the last was created more than a second ago; otherwise
/// a thread picked at random among all but the last.
pub fn choose_download_thread(free: &Vec<bool>, secs_since_create: u64) -> (r: ThreadChoice)
    ensures
        first_free(free@) matches Some(i) ==> r == ThreadChoice::Use(i as usize),
        first_free(free@) is None && (free@.len() <= 1 || secs_since_create > 1) ==> r is Create,
        first_free(free@) is None && !(free@.len() <= 1 || secs_since_create > 1) ==> (r matches ThreadChoice::Random(
            i,
        ) && i < free@.len() - 1),
{
    let mut i: usize = 0;
    while i < free.len()
        invariant
            i <= free@.len(),
            first_free(free@.take(i as int)) is None,
        decreases free.len() - i,
    {
        proof {
            assert(free@.take(i + 1).drop_last() == free@.take(i as int));
        }
        if free[i] {
            proof {
                lemma_first_free_prefix(free@, i as int);
            }
            return ThreadChoice::Use(i);
        }
        i = i + 1;
    }
    assert(free@.take(free@.len() as int) == free@);
    if free.len() <= 1 || secs_since_create > 1 {
        ThreadChoice::Create
    } else {
        ThreadChoice::Random(random_below(free.len() - 1))
    }
}

proof fn lemma_first_free_prefix(free: Seq<bool>, i: int)
    requires
        0 <= i < free.len(),
        free[i],
        first_free(free.take(i)) is None,
    ensures
        first_free(free) == Some(i),
    decreases free.len(),
{
    if i < free.len() - 1 {
        assert(free.drop_last().take(i) == free.take(i));
        lemma_first_free_prefix(free.drop_last(), i);
    } else {
        assert(free.drop_last() == free.take(i));
    }
}

/// Processing a listing against a list of remembered URLs that only grows: a URL not yet
/// remembered is remembered and taken. Gives the final list and the taken positions.
pub open spec fn admit_unbounded(q: Seq<Seq<char>>, urls: Seq<Seq<char>>) -> (Seq<Seq<char>>, Seq<int>)
    decreases urls.len(),
{
    if urls.len() == 0 {
        (q, Seq::<int>::empty())
    } else {
        let prev = admit_unbounded(q, urls.drop_last());
        if prev.0.contains(urls.last()) {
            prev
        } else {
            (prev.0.push(urls.last()), prev.1.push(urls.len() - 1))
        }
    }
}

/// Takes the segments of one listing against the remembered URLs, which only grow:
/// every segment whose URL is not remembered is remembered and returned, in listing
/// order, as a download of `<time>_<duration>.ts` into `output`.
pub fn admit_segments_unbounded(queued: &mut Vec<String>, output: &str, entries: &Vec<SegmentEntry>) -> (r: Vec<
    DownloadMedia,
>)
    ensures
        final(queued)@.map_values(|s: String| s@) == admit_unbounded(
            old(queued)@.map_values(|s: String| s@),
            entry_urls(entries@),
        ).0,
        r@.len() == admit_unbounded(old(queued)@.map_values(|s: String| s@), entry_urls(entries@)).1.len(),
        forall|k: int|
            #![trigger r@[k]]
            0 <= k < r@.len() ==> {
                let e = entries@[admit_unbounded(
                    old(queued)@.map_values(|s: String| s@),
                    entry_urls(entries@),
                ).1[k]];
                r@[k]@ == MediaView {
                    output: output@,
                    name: segment_file_name(e.time as int, e.duration@),
                    url: e.url@,
                }
            },
{
    let ghost q0 = old(queued)@.map_values(|s: String| s@);
    let ghost urls = entry_urls(entries@);
    let mut r: Vec<DownloadMedia> = Vec::new();
    let mut i: usize = 0;
    while i < entries.len()
        invariant
            q0 == old(queued)@.map_values(|s: String| s@),
            urls == entry_urls(entries@),
            i <= entries@.len(),
            queued@.map_values(|s: String| s@) == admit_unbounded(q0, urls.take(i as int)).0,
            r@.len() == admit_unbounded(q0, urls.take(i as int)).1.len(),
            forall|k: int|
                #![trigger r@[k]]
                0 <= k < r@.len() ==> {
                    let e = entries@[admit_unbounded(q0, urls.take(i as int)).1[k]];
                    r@[k]@ == MediaView {
                        output: output@,
                        name: segment_file_name(e.time as int, e.duration@),
                        url: e.url@,
                    }
                },
        decreases entries.len() - i,
    {
        let ghost qv = queued@.map_values(|s: String| s@);
        proof {
            assert(urls.take(i + 1).drop_last() == urls.take(i as int));
            assert(urls.take(i + 1).last() == entries@[i as int].url@);
        }
        let url = &entries[i].url;
        let mut found = false;
        let mut j: usize = 0;
        while j < queued.len()
            invariant
                qv == queued@.map_values(|s: String| s@),
                j <= queued@.len(),
                found <==> exists|jj: int| 0 <= jj < j && qv[jj] == url@,
            decreases queued.len() - j,
        {
            let same = queued[j] == *url;
            proof {
                assert(qv[j as int] == queued@[j as int]@);
                assert(same == (qv[j as int] == url@));
                if !same {
                    assert forall|jj: int| 0 <= jj < j + 1 && qv[jj] == url@ implies jj < j by {}
                }
            }
            if same {
                found = true;
            }
            j = j + 1;
        }
        proof {
            if qv.contains(url@) {
                let jj = choose|jj: int| 0 <= jj < qv.len() && qv[jj] == url@;
                assert(0 <= jj < j);
            }
            if found {
                let jj = choose|jj: int| 0 <= jj < j && qv[jj] == url@;
                assert(qv.contains(url@));
            }
        }
        if !found {
            queued.push(url.clone());
            let mut name = i64_text(entries[i].time);
            push_char(&mut name, '_');
            push_str(&mut name, &entries[i].duration);
            push_str(&mut name, ".ts");
            proof {
                reveal_strlit(".ts");
                assert(name@ =~= segment_file_name(entries@[i as int].time as int, entries@[i as int].duration@));
                assert(queued@.map_values(|s: String| s@) =~= qv.push(url@));
            }
            let ghost old_r = r@;
            r.push(DownloadMedia { output: output.to_string(), name, url: url.clone() });
            proof {
                let now = admit_unbounded(q0, urls.take(i + 1));
                assert forall|k: int| #![trigger r@[k]] 0 <= k < r@.len() implies {
                    let e = entries@[now.1[k]];
                    r@[k]@ == MediaView {
                        output: output@,
                        name: segment_file_name(e.time as int, e.duration@),
                        url: e.url@,
                    }
                } by {
                    if k < old_r.len() {
                        assert(r@[k] == old_r[k]);
                    }
                }
            }
        }
        i = i + 1;
    }
    assert(urls.take(entries@.len() as int) =~= urls);
    r
}

/// With a list that only grows, a URL is taken at most once and never when it was
/// remembered before; afterwards every listed URL is remembered.
pub proof fn lemma_unbounded_takes_each_url_once(q: Seq<Seq<char>>, urls: Seq<Seq<char>>)
    requires
        q.no_duplicates(),
    ensures
        admit_unbounded(q, urls).0.no_duplicates(),
        admit_unbounded(q, urls).0 == q + admit_unbounded(q, urls).1.map_values(|i: int| urls[i]),
        forall|i: int| 0 <= i < urls.len() ==> admit_unbounded(q, urls).0.contains(#[trigger] urls[i]),
        forall|k: int|
            0 <= k < admit_unbounded(q, urls).1.len() ==> 0 <= #[trigger] admit_unbounded(q, urls).1[k]
                < urls.len(),
    decreases urls.len(),
{
    if urls.len() == 0 {
        assert(q + Seq::<int>::empty().map_values(|i: int| urls[i]) =~= q);
    } else {
        let us = urls.drop_last();
        lemma_unbounded_takes_each_url_once(q, us);
        let prev = admit_unbounded(q, us);
        let fin = admit_unbounded(q, urls);
        assert(prev.1.map_values(|i: int| urls[i]) =~= prev.1.map_values(|i: int| us[i]));
        if !prev.0.contains(urls.last()) {
            assert(fin.1.map_values(|i: int| urls[i]) =~= prev.1.map_values(|i: int| urls[i]).push(urls.last()));
            assert forall|a: int, b: int| 0 <= a < fin.0.len() && 0 <= b < fin.0.len() && a != b implies fin.0[a]
                != fin.0[b] by {
                if a == fin.0.len() - 1 {
                    assert(prev.0.contains(fin.0[b]));
                } else if b == fin.0.len() - 1 {
                    assert(prev.0.contains(fin.0[a]));
                }
            }
        }
        assert forall|i: int| 0 <= i < urls.len() implies fin.0.contains(#[trigger] urls[i]) by {
            if i < us.len() {
                assert(us[i] == urls[i]);
                let j = choose|j: int| 0 <= j < prev.0.len() && prev.0[j] == urls[i];
                if !prev.0.contains(urls.last()) {
                    assert(fin.0[j] == urls[i]);
                }
            } else if !prev.0.contains(urls.last()) {
                assert(fin.0.last() == urls.last());
            }
        }
    }
}

} // verus!
