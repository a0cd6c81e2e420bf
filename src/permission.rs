use vstd::prelude::*;
use crate::prompt::{decide, decision_of, prompt_text, PromptRequest, PromptResponse};
use crate::text::str_eq;

verus! {

/// A class of guarded operations.
#[derive(Clone, Copy, Debug, PartialEq, Eq, Structural)]
pub enum Capability {
    FilesystemRead,
    FilesystemWrite,
    Network,
    Environment,
    SubprocessSpawn,
    NativeBindingLoad,
}

/// The symbolic name shown to the operator.
pub open spec fn capability_name(c: Capability) -> Seq<char> {
    match c {
        Capability::FilesystemRead => "filesystem-read"@,
        Capability::FilesystemWrite => "filesystem-write"@,
        Capability::Network => "network"@,
        Capability::Environment => "environment"@,
        Capability::SubprocessSpawn => "subprocess-spawn"@,
        Capability::NativeBindingLoad => "native-binding-load"@,
    }
}

impl Capability {
    /// The symbolic name shown to the operator.
    pub fn name(&self) -> (r: &'static str)
        ensures
            r@ == capability_name(*self),
    {
        match self {
            Capability::FilesystemRead => "filesystem-read",
            Capability::FilesystemWrite => "filesystem-write",
            Capability::Network => "network",
            Capability::Environment => "environment",
            Capability::SubprocessSpawn => "subprocess-spawn",
            Capability::NativeBindingLoad => "native-binding-load",
        }
    }
}

/// What a guarded operation may do next.
pub enum Access {
    /// Allowed earlier: proceed.
    Granted,
    /// Denied earlier: fail with a permission error.
    Refused,
    /// Not decided yet: ask the operator with this request.
    Ask(PromptRequest),
}

struct GrantEntry {
    capability: Capability,
    resource: String,
    decision: PromptResponse,
}

/// The operator's decisions so far, per capability and resource. A pair
/// without an entry is unset and prompts on first use.
pub struct PermissionState {
    entries: Vec<GrantEntry>,
    grants: Ghost<Map<(Capability, Seq<char>), PromptResponse>>,
}

impl View for PermissionState {
    type V = Map<(Capability, Seq<char>), PromptResponse>;

    closed spec fn view(&self) -> Map<(Capability, Seq<char>), PromptResponse> {
        self.grants@
    }
}

/// `a` is the access that the decisions `grants` give `c` on `resource`:
/// the recorded decision, or a unary request naming both when unset.
pub open spec fn access_matches(
    a: Access,
    grants: Map<(Capability, Seq<char>), PromptResponse>,
    c: Capability,
    resource: Seq<char>,
) -> bool {
    match a {
        Access::Granted => grants.contains_key((c, resource)) && grants[(c, resource)]
            == PromptResponse::Allow,
        Access::Refused => grants.contains_key((c, resource)) && grants[(c, resource)]
            == PromptResponse::Deny,
        Access::Ask(req) => !grants.contains_key((c, resource)) && req.name@ == capability_name(c)
            && req.message@ == resource && req.api_name is None && req.is_unary,
    }
}

impl PermissionState {
    /// The stored entries agree with the decisions, one per pair.
    pub closed spec fn wf(&self) -> bool {
        &&& forall|i: int|
            #![trigger self.entries@[i]]
            0 <= i < self.entries@.len() ==> self.grants@.contains_key(
                (self.entries@[i].capability, self.entries@[i].resource@),
            ) && self.grants@[(self.entries@[i].capability, self.entries@[i].resource@)]
                == self.entries@[i].decision
        &&& forall|k: (Capability, Seq<char>)|
            #![trigger self.grants@.contains_key(k)]
            self.grants@.contains_key(k) ==> exists|i: int|
                0 <= i < self.entries@.len() && self.entries@[i].capability == k.0
                    && self.entries@[i].resource@ == k.1
        &&& forall|i: int, j: int|
            0 <= i < self.entries@.len() && 0 <= j < self.entries@.len() && i != j ==> !(
            self.entries@[i].capability == self.entries@[j].capability
                && self.entries@[i].resource@ == self.entries@[j].resource@)
    }

    /// No decision taken yet: every guarded operation prompts.
    pub fn new() -> (r: PermissionState)
        ensures
            r.wf(),
            r@ == Map::<(Capability, Seq<char>), PromptResponse>::empty(),
    {
        PermissionState { entries: Vec::new(), grants: Ghost(Map::empty()) }
    }

    fn position(&self, c: Capability, resource: &str) -> (r: Option<usize>)
        requires
            self.wf(),
        ensures
            match r {
                Some(i) => i < self.entries@.len() && self.entries@[i as int].capability == c
                    && self.entries@[i as int].resource@ == resource@,
                None => !self@.contains_key((c, resource@)),
            },
    {
        let mut i: usize = 0;
        while i < self.entries.len()
            invariant
                self.wf(),
                i <= self.entries@.len(),
                forall|j: int|
                    0 <= j < i ==> !(self.entries@[j].capability == c
                        && self.entries@[j].resource@ == resource@),
            decreases self.entries@.len() - i,
        {
            if self.entries[i].capability == c && str_eq(self.entries[i].resource.as_str(), resource) {
                return Some(i);
            }
            i = i + 1;
        }
        proof {
            if self@.contains_key((c, resource@)) {
                let k = (c, resource@);
                assert(self.grants@.contains_key(k));
                let j = choose|j: int|
                    0 <= j < self.entries@.len() && self.entries@[j].capability == k.0
                        && self.entries@[j].resource@ == k.1;
                assert(self.entries@[j].capability == c);
            }
        }
        None
    }

    /// The decision recorded for `c` on `resource`, if any.
    pub fn check(&self, c: Capability, resource: &str) -> (r: Option<PromptResponse>)
        requires
            self.wf(),
        ensures
            r == (if self@.contains_key((c, resource@)) {
                Some(self@[(c, resource@)])
            } else {
                None
            }),
    {
        match self.position(c, resource) {
            Some(i) => Some(self.entries[i].decision),
            None => None,
        }
    }

    /// Records `decision` for `c` on `resource`, replacing an earlier one.
    pub fn record(&mut self, c: Capability, resource: &str, decision: PromptResponse)
        requires
            old(self).wf(),
        ensures
            final(self).wf(),
            final(self)@ == old(self)@.insert((c, resource@), decision),
    {
        let entry = GrantEntry { capability: c, resource: String::from_str(resource), decision };
        let ghost idx: int;
        match self.position(c, resource) {
            Some(i) => {
                self.entries.set(i, entry);
                proof {
                    idx = i as int;
                }
            },
            None => {
                self.entries.push(entry);
                proof {
                    idx = old(self).entries@.len() as int;
                }
            },
        }
        self.grants = Ghost(self.grants@.insert((c, resource@), decision));
        assert(self.entries@[idx].capability == c && self.entries@[idx].resource@ == resource@);
        assert forall|k: (Capability, Seq<char>)|
            #![trigger self.grants@.contains_key(k)]
            self.grants@.contains_key(k) implies exists|i: int|
                0 <= i < self.entries@.len() && self.entries@[i].capability == k.0
                    && self.entries@[i].resource@ == k.1 by {
            if k != (c, resource@) {
                assert(old(self).grants@.contains_key(k));
                let j = choose|j: int|
                    0 <= j < old(self).entries@.len() && old(self).entries@[j].capability == k.0
                        && old(self).entries@[j].resource@ == k.1;
                assert(self.entries@[j].capability == k.0);
            } else {
                assert(self.entries@[idx].capability == k.0);
            }
        }
        assert forall|i: int|
            #![trigger self.entries@[i]]
            0 <= i < self.entries@.len() implies self.grants@.contains_key(
                (self.entries@[i].capability, self.entries@[i].resource@),
            ) && self.grants@[(self.entries@[i].capability, self.entries@[i].resource@)]
                == self.entries@[i].decision by {
            if i != idx {
                assert(old(self).entries@[i] == self.entries@[i]);
                if idx < old(self).entries@.len() {
                    assert(old(self).entries@[idx].capability == c);
                }
            }
        }
    }

    /// What a guarded operation on `resource` needs: proceed, fail, or a
    /// request to put to the operator.
    pub fn access(&self, c: Capability, resource: &str) -> (r: Access)
        requires
            self.wf(),
        ensures
            access_matches(r, self@, c, resource@),
    {
        match self.check(c, resource) {
            Some(PromptResponse::Allow) => Access::Granted,
            Some(PromptResponse::Deny) => Access::Refused,
            None => Access::Ask(
                PromptRequest {
                    message: String::from_str(resource),
                    name: String::from_str(c.name()),
                    api_name: None,
                    is_unary: true,
                },
            ),
        }
    }

    /// Records the operator's answer line to the request for `c` on
    /// `resource` (`None` for a failed read) and returns the decision.
    pub fn answer(&mut self, c: Capability, resource: &str, line: Option<&str>) -> (r: PromptResponse)
        requires
            old(self).wf(),
        ensures
            final(self).wf(),
            r == decision_of(
                match line {
                    Some(a) => Some(a@),
                    None => None,
                },
            ),
            final(self)@ == old(self)@.insert((c, resource@), r),
    {
        let d = decide(line);
        self.record(c, resource, d);
        d
    }
}

/// Fail-closed: after an answer that is not affirmative, or a failed read,
/// the same operation on the same resource is refused.
pub proof fn denial_is_remembered(
    grants: Map<(Capability, Seq<char>), PromptResponse>,
    c: Capability,
    resource: Seq<char>,
    line: Option<Seq<char>>,
    next: Access,
)
    requires
        decision_of(line) == PromptResponse::Deny,
        access_matches(next, grants.insert((c, resource), decision_of(line)), c, resource),
    ensures
        next is Refused,
{
}

/// The prompt put to the operator for an unset capability on a resource
/// names the capability and the resource, and marks the check as unary.
pub proof fn prompt_names_request(
    grants: Map<(Capability, Seq<char>), PromptResponse>,
    c: Capability,
    resource: Seq<char>,
    req: PromptRequest,
)
    requires
        access_matches(Access::Ask(req), grants, c, resource),
    ensures
        prompt_text(
            req.message@,
            req.name@,
            match req.api_name {
                Some(a) => Some(a@),
                None => None,
            },
            req.is_unary,
        ) == prompt_text(resource, capability_name(c), None, true),
{
}

} // verus!
