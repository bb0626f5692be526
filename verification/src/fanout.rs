use vstd::prelude::*;
use crate::registry::Connection;
use crate::registry::unique_fds;

verus! {

/// Who receives a payload that arrived from `sender`: the sender alone (pure
/// echo), every registered connection (pure relay), or every registered
/// connection except the sender (peer-to-peer relay, the default).
#[derive(Clone, Copy, PartialEq, Eq, Structural, Debug)]
pub enum FanoutPolicy {
    EchoOnly,
    AllPeers,
    AllExceptSender,
}

/// Whether a connection with descriptor `target_fd` is a recipient.
pub open spec fn selects(policy: FanoutPolicy, target_fd: i32, sender_fd: i32) -> bool {
    match policy {
        FanoutPolicy::EchoOnly => target_fd == sender_fd,
        FanoutPolicy::AllPeers => true,
        FanoutPolicy::AllExceptSender => target_fd != sender_fd,
    }
}

/// Decide at run time whether `target_fd` receives the payload.
pub fn is_recipient(policy: FanoutPolicy, target_fd: i32, sender_fd: i32) -> (r: bool)
    ensures
        r == selects(policy, target_fd, sender_fd),
{
    match policy {
        FanoutPolicy::EchoOnly => target_fd == sender_fd,
        FanoutPolicy::AllPeers => true,
        FanoutPolicy::AllExceptSender => target_fd != sender_fd,
    }
}

/// How many of the connections a fan-out from `sender_fd` targets.
pub open spec fn count_selected(s: Seq<Connection>, policy: FanoutPolicy, sender_fd: i32) -> nat
    decreases s.len(),
{
    if s.len() == 0 {
        0
    } else {
        (if selects(policy, s[0].fd, sender_fd) {
            1nat
        } else {
            0nat
        }) + count_selected(s.drop_first(), policy, sender_fd)
    }
}

/// Counting a longer prefix adds the one connection at its end.
pub proof fn lemma_count_selected_take_succ(
    s: Seq<Connection>,
    policy: FanoutPolicy,
    sender_fd: i32,
    i: int,
)
    requires
        0 <= i < s.len(),
    ensures
        count_selected(s.take(i + 1), policy, sender_fd) == count_selected(
            s.take(i),
            policy,
            sender_fd,
        ) + (if selects(policy, s[i].fd, sender_fd) {
            1nat
        } else {
            0nat
        }),
    decreases i,
{
    if i == 0 {
        assert(s.take(1).drop_first() =~= Seq::<Connection>::empty());
        assert(s.take(0) =~= Seq::<Connection>::empty());
        assert(s.take(1)[0] == s[0]);
    } else {
        assert(s.take(i + 1).drop_first() =~= s.drop_first().take(i));
        assert(s.take(i).drop_first() =~= s.drop_first().take(i - 1));
        lemma_count_selected_take_succ(s.drop_first(), policy, sender_fd, i - 1);
        assert(s.take(i + 1)[0] == s[0]);
        assert(s.take(i)[0] == s[0]);
        assert(s.drop_first()[i - 1] == s[i]);
    }
}

/// With no connection owning `sender_fd`, the all-except-sender policy
/// targets every connection.
proof fn lemma_count_all_when_absent(s: Seq<Connection>, sender_fd: i32)
    requires
        forall|k: int| 0 <= k < s.len() ==> (#[trigger] s[k]).fd != sender_fd,
    ensures
        count_selected(s, FanoutPolicy::AllExceptSender, sender_fd) == s.len(),
    decreases s.len(),
{
    if s.len() > 0 {
        assert(forall|k: int|
            0 <= k < s.drop_first().len() ==> (#[trigger] s.drop_first()[k]).fd != sender_fd)
            by {
            assert(forall|k: int|
                0 <= k < s.drop_first().len() ==> s.drop_first()[k] == s[k + 1]);
        }
        lemma_count_all_when_absent(s.drop_first(), sender_fd);
    }
}

/// Broadcast completeness for the all-except-sender policy: with the sender
/// among `N` registered connections (descriptors unique), the fan-out targets
/// exactly `N - 1` connections — every registered connection except the
/// sender.
pub proof fn lemma_all_except_sender_count(s: Seq<Connection>, sender_fd: i32)
    requires
        unique_fds(s),
        exists|k: int| 0 <= k < s.len() && (#[trigger] s[k]).fd == sender_fd,
    ensures
        count_selected(s, FanoutPolicy::AllExceptSender, sender_fd) == s.len() - 1,
    decreases s.len(),
{
    let rest = s.drop_first();
    assert(forall|k: int| 0 <= k < rest.len() ==> rest[k] == s[k + 1]);
    if s[0].fd == sender_fd {
        assert forall|k: int| 0 <= k < rest.len() implies (#[trigger] rest[k]).fd != sender_fd by {
            if rest[k].fd == sender_fd {
                assert(s[k + 1].fd == s[0].fd);
            }
        }
        lemma_count_all_when_absent(rest, sender_fd);
    } else {
        let k0 = choose|k: int| 0 <= k < s.len() && (#[trigger] s[k]).fd == sender_fd;
        assert(k0 != 0);
        assert(rest[k0 - 1].fd == sender_fd);
        assert(unique_fds(rest)) by {
            assert forall|k1: int, k2: int|
                0 <= k1 < rest.len() && 0 <= k2 < rest.len() && #[trigger] rest[k1].fd
                    == #[trigger] rest[k2].fd implies k1 == k2 by {
                assert(s[k1 + 1].fd == s[k2 + 1].fd);
            }
        }
        lemma_all_except_sender_count(rest, sender_fd);
    }
}

} // verus!
