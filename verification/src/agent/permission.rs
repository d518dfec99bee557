//! Permission checks before a tool runs, with the approvals a session
//! remembers.

use vstd::prelude::*;
use crate::text::{push_str, str_eq};

verus! {

/// What a tool call may do without asking.
#[derive(Debug, Clone, Copy, PartialEq, Eq, Structural)]
pub enum Permission {
    /// Run without asking.
    Auto,
    /// Ask the user first.
    Ask,
    /// Refuse.
    Deny,
}

/// Decides tool permissions and remembers the calls the user approved,
/// each by its tool name and a digest of its arguments.
pub struct PermissionGate {
    approved: Vec<String>,
}

/// The key under which an approval is remembered: `tool:digest`.
pub open spec fn approval_key(tool_name: Seq<char>, args_digest: Seq<char>) -> Seq<char> {
    tool_name + ":"@ + args_digest
}

fn make_key(tool_name: &str, args_digest: &str) -> (r: String)
    ensures
        r@ == approval_key(tool_name@, args_digest@),
{
    let mut key = tool_name.to_owned();
    push_str(&mut key, ":");
    push_str(&mut key, args_digest);
    key
}

impl PermissionGate {
    /// The approvals remembered.
    pub closed spec fn approved(self) -> Seq<Seq<char>> {
        self.approved@.map_values(|s: String| s@)
    }

    /// A gate that remembers no approval.
    pub fn new() -> (r: Self)
        ensures
            r.approved() == Seq::<Seq<char>>::empty(),
    {
        let r = PermissionGate { approved: Vec::new() };
        assert(r.approved() =~= Seq::<Seq<char>>::empty());
        r
    }

    /// The permission of a call of `tool_name`: every tool runs without
    /// asking.
    pub fn check(&self, tool_name: &str) -> (r: Permission)
        ensures
            r == Permission::Auto,
    {
        Permission::Auto
    }

    /// Whether the call (tool and argument digest) was approved before.
    pub fn is_approved(&self, tool_name: &str, args_digest: &str) -> (r: bool)
        ensures
            r == self.approved().contains(approval_key(tool_name@, args_digest@)),
    {
        let key = make_key(tool_name, args_digest);
        let mut i: usize = 0;
        while i < self.approved.len()
            invariant
                i <= self.approved@.len(),
                key@ == approval_key(tool_name@, args_digest@),
                forall|k: int| 0 <= k < i ==> self.approved()[k] != key@,
            decreases self.approved.len() - i,
        {
            if str_eq(self.approved[i].as_str(), key.as_str()) {
                assert(self.approved()[i as int] == key@);
                return true;
            }
            i += 1;
        }
        false
    }

    /// The permission of a call, with remembered approvals: an approved
    /// call runs without asking; others go by `check`.
    pub fn check_with_cache(&mut self, tool_name: &str, args_digest: &str) -> (r: Permission)
        ensures
            final(self).approved() == old(self).approved(),
            r == Permission::Auto,
    {
        if self.is_approved(tool_name, args_digest) {
            return Permission::Auto;
        }
        self.check(tool_name)
    }

    /// Remembers that the user approved this call.
    pub fn approve(&mut self, tool_name: &str, args_digest: &str)
        ensures
            final(self).approved().contains(approval_key(tool_name@, args_digest@)),
            forall|k: Seq<char>| old(self).approved().contains(k) ==> final(self).approved().contains(k),
    {
        let key = make_key(tool_name, args_digest);
        let ghost a0 = self.approved();
        self.approved.push(key);
        assert(self.approved() =~= a0.push(approval_key(tool_name@, args_digest@)));
        assert(self.approved()[a0.len() as int] == approval_key(tool_name@, args_digest@));
        assert forall|k: Seq<char>| a0.contains(k) implies self.approved().contains(k) by {
            let j = choose|j: int| 0 <= j < a0.len() && a0[j] == k;
            assert(self.approved()[j] == k);
        }
    }
}

} // verus!
