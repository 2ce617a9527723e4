use vstd::prelude::*;

use crate::clock::current_time_secs;
use crate::kv::{find_u64_key, insert_spec, keys_of, lookup_spec, texts};
use crate::text::{decimal, decimal_string};

verus! {

/// A security log line: the time in brackets, a dash, the message.
pub open spec fn log_line(ts: u64, message: Seq<char>) -> Seq<char> {
    seq!['['] + decimal(ts as nat) + seq![']', ' ', '-', ' '] + message
}

/// The message logged when a nonce is seen for the `count`-th time, `count > 1`.
pub open spec fn replay_message(nonce: u64, count: u32) -> Seq<char> {
    "?? Replay-Angriff erkannt! Nonce: "@ + decimal(nonce as nat) + " ("@ + decimal(count as nat) + " Versuche)"@
}

/// Logged when a Noise handshake completed.
pub open spec fn handshake_ok_message() -> Seq<char> {
    "?? Noise Handshake erfolgreich abgeschlossen."@
}

/// Logged when a Noise handshake did not complete.
pub open spec fn handshake_failed_message() -> Seq<char> {
    "? Noise Handshake FEHLGESCHLAGEN."@
}

/// What is logged for a handshake that did or did not complete.
pub open spec fn handshake_message(complete: bool) -> Seq<char> {
    if complete {
        handshake_ok_message()
    } else {
        handshake_failed_message()
    }
}

/// How often `nonce` has been presented so far.
pub open spec fn attempts_of(attempts: Seq<(u64, u32)>, nonce: u64) -> u32 {
    match lookup_spec(attempts, nonce) {
        Some(c) => c,
        None => 0,
    }
}

/// Keeps a security log and counts how often each nonce was presented, to
/// detect replays.
pub struct SecurityMonitor {
    logs: Vec<String>,
    replay_attempts: Vec<(u64, u32)>,
}

impl SecurityMonitor {
    /// The log lines, oldest first.
    pub closed spec fn logs(&self) -> Seq<Seq<char>> {
        texts(self.logs@)
    }

    /// For each nonce seen, how often it was presented.
    pub closed spec fn attempts(&self) -> Seq<(u64, u32)> {
        self.replay_attempts@
    }

    /// Each nonce is counted in one place.
    pub open spec fn wf(&self) -> bool {
        keys_of(self.attempts()).no_duplicates()
    }

    /// An empty log and no nonce seen.
    pub fn new() -> (res: Self)
        ensures
            res.wf(),
            res.logs().len() == 0,
            res.attempts().len() == 0,
    {
        let res = SecurityMonitor { logs: Vec::new(), replay_attempts: Vec::new() };
        assert(texts(res.logs@) =~= Seq::<Seq<char>>::empty());
        assert(keys_of(res.replay_attempts@) =~= Seq::<u64>::empty());
        res
    }

    /// The log lines, oldest first.
    pub fn log_lines(&self) -> (res: &Vec<String>)
        ensures
            texts(res@) == self.logs(),
    {
        &self.logs
    }

    /// Appends `message` to the log, stamped with `now_secs`.
    pub fn record_event(&mut self, now_secs: u64, message: &str)
        ensures
            final(self).logs() == old(self).logs().push(log_line(now_secs, message@)),
            final(self).attempts() == old(self).attempts(),
    {
        let mut line = String::from_str("[");
        line.append(decimal_string(now_secs).as_str());
        line.append("] - ");
        line.append(message);
        proof {
            reveal_strlit("[");
            reveal_strlit("] - ");
            assert(line@ =~= log_line(now_secs, message@));
        }
        let ghost old_logs = self.logs@;
        self.logs.push(line);
        assert(texts(self.logs@) =~= texts(old_logs).push(log_line(now_secs, message@)));
    }

    /// Appends `message` to the log, stamped with the local clock (whose
    /// reading is not promised).
    pub fn log_event(&mut self, message: &str)
        ensures
            exists|t: u64| final(self).logs() == old(self).logs().push(#[trigger] log_line(t, message@)),
            final(self).attempts() == old(self).attempts(),
    {
        let now = current_time_secs();
        self.record_event(now, message);
    }

    /// Counts one more presentation of `nonce`; a nonce presented before is
    /// a replay: it is logged and refused.
    pub fn is_valid_nonce(&mut self, nonce: u64) -> (res: bool)
        requires
            old(self).wf(),
            attempts_of(old(self).attempts(), nonce) < u32::MAX,
        ensures
            final(self).wf(),
            res == (attempts_of(old(self).attempts(), nonce) == 0),
            final(self).attempts() == insert_spec(
                old(self).attempts(),
                nonce,
                (attempts_of(old(self).attempts(), nonce) + 1) as u32,
            ),
            res ==> final(self).logs() == old(self).logs(),
            !res ==> exists|t: u64| final(self).logs() == old(self).logs().push(
                #[trigger] log_line(t, replay_message(nonce, (attempts_of(old(self).attempts(), nonce) + 1) as u32)),
            ),
    {
        let ghost old_a = self.replay_attempts@;
        proof {
            keys_of(old_a).index_of_first_ensures(nonce);
        }
        let count: u32 = match find_u64_key(&self.replay_attempts, nonce) {
            Some(i) => {
                let c = self.replay_attempts[i].1 + 1;
                self.replay_attempts.set(i, (nonce, c));
                assert(self.replay_attempts@ =~= old_a.update(i as int, (nonce, c)));
                c
            },
            None => {
                self.replay_attempts.push((nonce, 1));
                1
            },
        };
        proof {
            crate::kv::lemma_insert_distinct(old_a, nonce, count);
        }
        if count > 1 {
            let mut msg = String::from_str("?? Replay-Angriff erkannt! Nonce: ");
            msg.append(decimal_string(nonce).as_str());
            msg.append(" (");
            msg.append(decimal_string(count as u64).as_str());
            msg.append(" Versuche)");
            assert(msg@ =~= replay_message(nonce, count));
            self.log_event(msg.as_str());
            return false;
        }
        true
    }

    /// Logs whether a Noise handshake completed.
    pub fn monitor_noise_handshake(&mut self, handshake_complete: bool)
        ensures
            final(self).attempts() == old(self).attempts(),
            exists|t: u64| final(self).logs() == old(self).logs().push(#[trigger] log_line(t, handshake_message(handshake_complete))),
    {
        let ghost old_logs = self.logs();
        let now = current_time_secs();
        if handshake_complete {
            self.record_event(now, "?? Noise Handshake erfolgreich abgeschlossen.");
        } else {
            self.record_event(now, "? Noise Handshake FEHLGESCHLAGEN.");
        }
        assert(self.logs() == old_logs.push(log_line(now, handshake_message(handshake_complete))));
    }

    /// A fresh nonce: the local clock in seconds (nothing is promised of it).
    pub fn generate_nonce() -> u64 {
        current_time_secs()
    }
}

/// A nonce is accepted at most once: after any presentation of `nonce`,
/// its count is positive, so presenting it again is refused.
pub proof fn lemma_nonce_replay_refused(attempts: Seq<(u64, u32)>, nonce: u64, count: u32)
    requires
        count > 0,
    ensures
        attempts_of(insert_spec(attempts, nonce, count), nonce) == count,
        attempts_of(insert_spec(attempts, nonce, count), nonce) != 0,
{
    crate::kv::lemma_lookup_insert_same(attempts, nonce, count);
}

} // verus!
