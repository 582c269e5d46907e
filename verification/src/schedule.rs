//! The pure decision logic of the download phase: the per-entry retry state
//! machine with exponential backoff, the global rate gate that keeps any two
//! requests a minimum interval apart, and the selection of files that still
//! need conversion.
use vstd::prelude::*;
use crate::text::chars_to_string;
use crate::text::copy_range;
use crate::text::ends_with;
use crate::text::push_all;
use crate::text::str_to_chars;
use crate::title::has_ext;
use crate::title::mp3_suffix;
use crate::title::wav_suffix;
use crate::title::wav_suffix_exec;

verus! {

// ---------- the retry state machine ----------

/// The lifecycle of one entry in the download phase.
#[derive(PartialEq, Eq, Structural, Clone, Copy, Debug)]
pub enum FetchState {
    Pending,
    Attempting { attempt: u8 },
    Succeeded,
    Abandoned,
}

/// What one attempt (fetch plus conversion) came to. A converter failure is
/// retried exactly like a fetch failure.
#[derive(PartialEq, Eq, Structural, Clone, Copy, Debug)]
pub enum AttemptOutcome {
    Success,
    Failure,
}

/// The number of attempts allowed per entry: one first try and three retries.
pub const MAX_ATTEMPTS: u8 = 4;

/// The backoff delay, in milliseconds, slept after the given attempt fails:
/// 1 s doubling to 8 s.
pub open spec fn spec_backoff_ms(attempt: u8) -> u64 {
    if attempt <= 1 {
        1000
    } else if attempt == 2 {
        2000
    } else if attempt == 3 {
        4000
    } else {
        8000
    }
}

pub open spec fn is_terminal(s: FetchState) -> bool {
    s is Succeeded || s is Abandoned
}

/// The transition of the retry machine: a success ends in `Succeeded`; a
/// failure before the attempt limit moves to the next attempt with its
/// backoff delay; a failure on the last attempt abandons the entry.
/// Terminal states and `Pending` do not move.
pub open spec fn spec_retry_step(s: FetchState, o: AttemptOutcome) -> (FetchState, Option<u64>) {
    match s {
        FetchState::Attempting { attempt } => match o {
            AttemptOutcome::Success => (FetchState::Succeeded, None),
            AttemptOutcome::Failure => if attempt < MAX_ATTEMPTS {
                (
                    FetchState::Attempting { attempt: (attempt + 1) as u8 },
                    Some(spec_backoff_ms(attempt)),
                )
            } else {
                (FetchState::Abandoned, None)
            },
        },
        _ => (s, None),
    }
}

/// Dispatching a pending entry begins its first attempt.
pub fn dispatch(s: FetchState) -> (r: FetchState)
    ensures
        r == (if s is Pending {
            FetchState::Attempting { attempt: 1u8 }
        } else {
            s
        }),
{
    match s {
        FetchState::Pending => FetchState::Attempting { attempt: 1 },
        _ => s,
    }
}

/// Advance the retry machine by one attempt's outcome; the second component
/// is the backoff to sleep before the next attempt, if any.
pub fn retry_step(s: FetchState, o: AttemptOutcome) -> (r: (FetchState, Option<u64>))
    ensures
        r == spec_retry_step(s, o),
{
    match s {
        FetchState::Attempting { attempt } => match o {
            AttemptOutcome::Success => (FetchState::Succeeded, None),
            AttemptOutcome::Failure => {
                if attempt < MAX_ATTEMPTS {
                    let delay: u64 = if attempt <= 1 {
                        1000
                    } else if attempt == 2 {
                        2000
                    } else if attempt == 3 {
                        4000
                    } else {
                        8000
                    };
                    (FetchState::Attempting { attempt: attempt + 1 }, Some(delay))
                } else {
                    (FetchState::Abandoned, None)
                }
            },
        },
        _ => (s, None),
    }
}

// ---------- the global rate gate ----------

/// The shared rate-limit state: the time the last request was issued and the
/// minimum interval between any two requests, both in milliseconds.
pub struct RateGate {
    pub last_issue_ms: u64,
    pub interval_ms: u64,
}

impl RateGate {
    /// A gate that admits its first request at once.
    pub fn new(interval_ms: u64, now_ms: u64) -> (r: RateGate)
        requires
            now_ms >= interval_ms,
        ensures
            r.last_issue_ms == now_ms - interval_ms,
            r.interval_ms == interval_ms,
    {
        RateGate { last_issue_ms: now_ms - interval_ms, interval_ms }
    }

    /// Reserve the next request slot at time `now_ms`: the result is how
    /// long the caller has to sleep first. Any two consecutive slots lie at
    /// least one interval apart.
    pub fn reserve(&mut self, now_ms: u64) -> (wait: u64)
        requires
            old(self).last_issue_ms + old(self).interval_ms <= u64::MAX,
        ensures
            final(self).interval_ms == old(self).interval_ms,
            final(self).last_issue_ms == (if now_ms >= old(self).last_issue_ms
                + old(self).interval_ms {
                now_ms as int
            } else {
                old(self).last_issue_ms + old(self).interval_ms
            }),
            now_ms + wait == final(self).last_issue_ms,
            final(self).last_issue_ms >= old(self).last_issue_ms + old(self).interval_ms,
    {
        let earliest: u64 = self.last_issue_ms + self.interval_ms;
        if now_ms >= earliest {
            self.last_issue_ms = now_ms;
            0
        } else {
            self.last_issue_ms = earliest;
            earliest - now_ms
        }
    }
}

// ---------- batch conversion candidates ----------

/// The canonical-format counterpart of a source-format file name.
pub open spec fn wav_counterpart(f: Seq<char>) -> Seq<char> {
    f.take(f.len() - 4) + wav_suffix()
}

/// The source-format files of `fs` whose canonical counterpart is missing
/// from the whole listing `all`.
pub open spec fn candidates_h(all: Seq<Seq<char>>, fs: Seq<Seq<char>>) -> Seq<Seq<char>>
    decreases fs.len(),
{
    if fs.len() == 0 {
        Seq::empty()
    } else {
        candidates_h(all, fs.drop_last()) + (if has_ext(fs.last(), mp3_suffix())
            && !all.contains(wav_counterpart(fs.last())) {
            seq![fs.last()]
        } else {
            Seq::empty()
        })
    }
}

/// The files that still need conversion: those in source format whose
/// canonical counterpart is not in the directory listing.
pub open spec fn spec_conversion_candidates(fs: Seq<Seq<char>>) -> Seq<Seq<char>> {
    candidates_h(fs, fs)
}

fn list_contains(files: &Vec<String>, s: &String) -> (r: bool)
    ensures
        r == files.deep_view().contains(s@),
{
    let mut k: usize = 0;
    while k < files.len()
        invariant
            k <= files@.len(),
            forall|j: int| 0 <= j < k ==> files.deep_view()[j] != s@,
        decreases files@.len() - k,
    {
        if files[k].eq(s) {
            proof {
                assert(files.deep_view()[k as int] == s@);
            }
            return true;
        }
        k = k + 1;
    }
    proof {
        if files.deep_view().contains(s@) {
            let j = choose|j: int| 0 <= j < files.deep_view().len() && files.deep_view()[j] == s@;
            assert(files.deep_view()[j] != s@);
        }
    }
    false
}

/// Pick, from a directory listing, the source-format files whose canonical
/// counterpart is missing, in listing order.
pub fn conversion_candidates(files: &Vec<String>) -> (r: Vec<String>)
    ensures
        r.deep_view() == spec_conversion_candidates(files.deep_view()),
{
    let ghost fv = files.deep_view();
    let mp3 = {
        let v = str_to_chars(".mp3");
        proof {
            reveal_strlit(".mp3");
            assert(v@ =~= mp3_suffix());
        }
        v
    };
    let wav = wav_suffix_exec();
    let mut r: Vec<String> = Vec::new();
    let mut j: usize = 0;
    proof {
        assert(fv.take(0) =~= Seq::<Seq<char>>::empty());
        assert(r.deep_view() =~= Seq::<Seq<char>>::empty());
    }
    while j < files.len()
        invariant
            j <= files@.len(),
            fv == files.deep_view(),
            r.deep_view() == candidates_h(fv, fv.take(j as int)),
        decreases files@.len() - j,
    {
        let f_chars = str_to_chars(files[j].as_str());
        proof {
            assert(fv[j as int] == files@[j as int]@);
            assert(fv.take(j + 1).drop_last() =~= fv.take(j as int));
            assert(fv.take(j + 1).last() == fv[j as int]);
        }
        if ends_with(&f_chars, &mp3) {
            let mut stem = copy_range(&f_chars, 0, f_chars.len() - 4);
            push_all(&mut stem, &wav);
            proof {
                assert(stem@ =~= wav_counterpart(fv[j as int]));
            }
            let counterpart = chars_to_string(&stem);
            if !list_contains(files, &counterpart) {
                let ghost r0 = r.deep_view();
                r.push(files[j].clone());
                proof {
                    assert(r.deep_view() =~= r0.push(fv[j as int]));
                    assert(r0.push(fv[j as int]) =~= r0 + seq![fv[j as int]]);
                }
            } else {
                proof {
                    assert(r.deep_view() + Seq::<Seq<char>>::empty() =~= r.deep_view());
                }
            }
        } else {
            proof {
                assert(r.deep_view() + Seq::<Seq<char>>::empty() =~= r.deep_view());
            }
        }
        j = j + 1;
    }
    proof {
        assert(fv.take(fv.len() as int) =~= fv);
    }
    r
}

} // verus!
