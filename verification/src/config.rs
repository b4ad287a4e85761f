//! User settings handed to the quiz core: the folder quizzes are read from
//! and a capped, deduplicated history of recently used files.
use vstd::prelude::*;
use vstd::string::StringExecFns;

verus! {

/// How many entries the file history keeps at most.
pub open spec fn history_cap() -> int {
    10
}

/// User settings: the quiz folder and `(file path, unix timestamp)` pairs,
/// most recent first.
#[derive(Debug)]
pub struct UserConfig {
    pub quiz_folder: String,
    pub file_history: Vec<(String, i64)>,
}

/// The entries of `h` whose path differs from `name`, in order.
pub open spec fn kept_history(h: Seq<(String, i64)>, name: Seq<char>) -> Seq<(String, i64)>
    decreases h.len(),
{
    if h.len() == 0 {
        Seq::empty()
    } else if h.last().0@ != name {
        kept_history(h.drop_last(), name).push(h.last())
    } else {
        kept_history(h.drop_last(), name)
    }
}

/// How a recorded file use rewrites the history: the entry moves (or
/// enters) at the front with the given timestamp, other entries keep their
/// order, duplicates of the path are dropped, and the list is capped.
pub open spec fn history_updated(
    old_h: Seq<(String, i64)>,
    new_h: Seq<(String, i64)>,
    name: Seq<char>,
    ts: i64,
) -> bool {
    let full = seq![(name, ts)].add(kept_history(old_h, name).map_values(|p: (String, i64)| (p.0@, p.1)));
    new_h.map_values(|p: (String, i64)| (p.0@, p.1)) == if full.len() <= history_cap() {
        full
    } else {
        full.take(history_cap())
    }
}

/// Relies on chrono's `Utc::now`: the wall clock, of which nothing is
/// assumed.
#[verifier::external_body]
fn current_unix_timestamp() -> i64 {
    chrono::Utc::now().timestamp()
}

impl Default for UserConfig {
    /// The starting settings: the current folder and no history.
    fn default() -> (r: Self)
        ensures
            r.quiz_folder@ == "."@,
            r.file_history@ == Seq::<(String, i64)>::empty(),
    {
        UserConfig { quiz_folder: String::from_str("."), file_history: Vec::new() }
    }
}

impl UserConfig {
    /// Records that `filename` was used at `timestamp`: it moves to the
    /// front of the history, any earlier entry for the same path is
    /// dropped, and the history is capped at its bound.
    pub fn record_file_use(&mut self, filename: String, timestamp: i64)
        ensures
            final(self).quiz_folder == old(self).quiz_folder,
            history_updated(old(self).file_history@, final(self).file_history@, filename@, timestamp),
    {
        let ghost old_h = self.file_history@;
        let mut updated: Vec<(String, i64)> = Vec::new();
        updated.push((filename.clone(), timestamp));
        let n = self.file_history.len();
        let mut i: usize = 0;
        while i < n
            invariant
                0 <= i <= n,
                n == old_h.len(),
                self.file_history@ == old_h,
                1 <= updated@.len() <= history_cap() as int,
                updated@[0].0@ == filename@,
                updated@[0].1 == timestamp,
                ({
                    let kept = kept_history(old_h.take(i as int), filename@);
                    let full = seq![(filename@, timestamp)].add(
                        kept.map_values(|p: (String, i64)| (p.0@, p.1)),
                    );
                    updated@.map_values(|p: (String, i64)| (p.0@, p.1)) == if full.len()
                        <= history_cap() {
                        full
                    } else {
                        full.take(history_cap())
                    }
                }),
            decreases n - i,
        {
            let ghost kept0 = kept_history(old_h.take(i as int), filename@);
            proof {
                assert(old_h.take(i + 1).drop_last() =~= old_h.take(i as int));
                assert(old_h.take(i + 1).last() == old_h[i as int]);
            }
            let entry = &self.file_history[i];
            if !(entry.0 == filename) {
                if updated.len() < 10 {
                    let ghost pre = updated@;
                    updated.push((entry.0.clone(), entry.1));
                    proof {
                        let m = |p: (String, i64)| (p.0@, p.1);
                        assert(updated@.map_values(m) =~= pre.map_values(m).push(
                            (old_h[i as int].0@, old_h[i as int].1),
                        ));
                        assert(kept_history(old_h.take(i + 1), filename@) == kept0.push(
                            old_h[i as int],
                        ));
                        assert(kept0.push(old_h[i as int]).map_values(m) =~= kept0.map_values(
                            m,
                        ).push(m(old_h[i as int])));
                        assert(seq![(filename@, timestamp)].add(
                            kept0.map_values(m).push(m(old_h[i as int])),
                        ) =~= seq![(filename@, timestamp)].add(kept0.map_values(m)).push(
                            m(old_h[i as int]),
                        ));
                    }
                } else {
                    proof {
                        let m = |p: (String, i64)| (p.0@, p.1);
                        let kept1 = kept_history(old_h.take(i + 1), filename@);
                        assert(kept1 == kept0.push(old_h[i as int]));
                        assert(kept1.map_values(m) =~= kept0.map_values(m).push(
                            m(old_h[i as int]),
                        ));
                        let full0 = seq![(filename@, timestamp)].add(kept0.map_values(m));
                        let full1 = seq![(filename@, timestamp)].add(kept1.map_values(m));
                        assert(full1 =~= full0.push(m(old_h[i as int])));
                        assert(full0.len() >= history_cap());
                        assert(full1.take(history_cap()) =~= if full0.len() <= history_cap() {
                            full0
                        } else {
                            full0.take(history_cap())
                        });
                    }
                }
            } else {
                proof {
                    assert(kept_history(old_h.take(i + 1), filename@) == kept0);
                }
            }
            i = i + 1;
        }
        proof {
            assert(old_h.take(n as int) =~= old_h);
        }
        self.file_history = updated;
    }

    /// Records that `filename` was used now: the history is rewritten as
    /// [`UserConfig::record_file_use`] says, with the clock's timestamp,
    /// whatever it reads.
    pub fn update_file_history(&mut self, filename: String)
        ensures
            final(self).quiz_folder == old(self).quiz_folder,
            exists|ts: i64|
                history_updated(
                    old(self).file_history@,
                    final(self).file_history@,
                    filename@,
                    ts,
                ),
    {
        let timestamp = current_unix_timestamp();
        self.record_file_use(filename, timestamp);
    }
}

} // verus!
