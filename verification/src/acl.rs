//! Ordered access-control rule evaluation with stateful "established"
//! semantics backed by a cache of observed flows.
use vstd::prelude::*;
use crate::flow::Flow;
use crate::flow::Ipv4Prefix;

verus! {

/// The cache of flows the engine has admitted: a flow is "established"
/// iff itself or its reverse has been admitted before.
pub struct ConnectionCache {
    pub flows: Vec<Flow>,
}

impl View for ConnectionCache {
    type V = Set<Flow>;

    open spec fn view(&self) -> Set<Flow> {
        self.flows@.to_set()
    }
}

impl ConnectionCache {
    /// An empty cache: no flow is established yet.
    pub fn new() -> (c: ConnectionCache)
        ensures
            c@ == Set::<Flow>::empty(),
    {
        let c = ConnectionCache { flows: Vec::new() };
        proof {
            assert(c@ =~= Set::<Flow>::empty());
        }
        c
    }

    /// Whether `f` itself has been observed (one direction only).
    pub fn contains(&self, f: &Flow) -> (r: bool)
        ensures
            r == self@.contains(*f),
    {
        let mut i: usize = 0;
        while i < self.flows.len()
            invariant
                0 <= i <= self.flows@.len(),
                forall|j: int| 0 <= j < i ==> self.flows@[j] != *f,
            decreases self.flows@.len() - i,
        {
            if self.flows[i] == *f {
                return true;
            }
            i = i + 1;
        }
        false
    }

    /// Record `f` as observed.
    pub fn insert(&mut self, f: Flow)
        ensures
            final(self)@ == old(self)@.insert(f),
    {
        let present = self.contains(&f);
        if !present {
            self.flows.push(f);
        }
        proof {
            let s_old = old(self).flows@;
            let s_new = self.flows@;
            if !present {
                assert forall|x: Flow| s_new.contains(x) implies s_old.contains(x) || x == f by {
                    let i = choose|i: int| 0 <= i < s_new.len() && s_new[i] == x;
                    if i < s_old.len() {
                        assert(s_old[i] == x);
                    }
                }
                assert forall|x: Flow| s_old.contains(x) implies s_new.contains(x) by {
                    let i = choose|i: int| 0 <= i < s_old.len() && s_old[i] == x;
                    assert(s_new[i] == x);
                }
                assert(s_new[s_old.len() as int] == f);
                assert(s_new.contains(f));
            }
            assert(self@ =~= old(self)@.insert(f));
        }
    }
}

/// The outcome of rule evaluation for one packet.
#[derive(Clone, Copy, PartialEq, Eq, Structural, Debug)]
pub enum Verdict {
    Admit,
    Drop,
}

/// One access-control rule: every `Some` matcher must be satisfied for the
/// rule to match; `drop` decides the verdict of a matching rule.
#[derive(Clone, Copy, PartialEq, Eq, Structural, Debug)]
pub struct Acl {
    pub src_ip: Option<Ipv4Prefix>,
    pub dst_ip: Option<Ipv4Prefix>,
    pub src_port: Option<u16>,
    pub dst_port: Option<u16>,
    pub established: Option<bool>,
    pub drop: bool,
}

impl Acl {
    /// The rule's prefixes, if present, are well formed.
    pub open spec fn wf(self) -> bool {
        &&& match self.src_ip {
            Option::Some(p) => p.wf(),
            Option::None => true,
        }
        &&& match self.dst_ip {
            Option::Some(p) => p.wf(),
            Option::None => true,
        }
    }

    /// The rule matches `f` given the set `conns` of observed flows:
    /// every `Some` matcher is satisfied, and the `established` matcher
    /// compares against whether `f` or its reverse was observed.
    pub open spec fn spec_matches(self, f: Flow, conns: Set<Flow>) -> bool {
        &&& match self.src_ip {
            Option::Some(p) => p.spec_in_range(f.src_ip),
            Option::None => true,
        }
        &&& match self.dst_ip {
            Option::Some(p) => p.spec_in_range(f.dst_ip),
            Option::None => true,
        }
        &&& match self.src_port {
            Option::Some(p) => f.src_port == p,
            Option::None => true,
        }
        &&& match self.dst_port {
            Option::Some(p) => f.dst_port == p,
            Option::None => true,
        }
        &&& match self.established {
            Option::Some(want) => (conns.contains(f) || conns.contains(f.spec_reverse()))
                == want,
            Option::None => true,
        }
    }

    /// Test whether this rule matches `flow` against the observed flows.
    pub fn matches(&self, flow: &Flow, connections: &ConnectionCache) -> (r: bool)
        requires
            self.wf(),
        ensures
            r == self.spec_matches(*flow, connections@),
    {
        let base = (match self.src_ip {
            Option::Some(p) => p.in_range(flow.src_ip),
            Option::None => true,
        }) && (match self.dst_ip {
            Option::Some(p) => p.in_range(flow.dst_ip),
            Option::None => true,
        }) && (match self.src_port {
            Option::Some(p) => flow.src_port == p,
            Option::None => true,
        }) && (match self.dst_port {
            Option::Some(p) => flow.dst_port == p,
            Option::None => true,
        });
        if !base {
            return false;
        }
        match self.established {
            Option::Some(want) => {
                let rev = flow.reverse_flow();
                let seen = connections.contains(flow) || connections.contains(&rev);
                seen == want
            },
            Option::None => true,
        }
    }
}

/// The verdict of the first rule in `rules` that matches `f`; `Drop` when
/// none matches (fail-closed).
pub open spec fn spec_evaluate(rules: Seq<Acl>, f: Flow, conns: Set<Flow>) -> Verdict
    decreases rules.len(),
{
    if rules.len() == 0 {
        Verdict::Drop
    } else if rules[0].spec_matches(f, conns) {
        if rules[0].drop {
            Verdict::Drop
        } else {
            Verdict::Admit
        }
    } else {
        spec_evaluate(rules.drop_first(), f, conns)
    }
}

/// If none of the first `i` rules matches, evaluation of the whole list
/// agrees with evaluation of the list with those rules removed.
proof fn lemma_spec_evaluate_skip(rules: Seq<Acl>, f: Flow, conns: Set<Flow>, i: int)
    requires
        0 <= i <= rules.len(),
        forall|j: int| 0 <= j < i ==> !rules[j].spec_matches(f, conns),
    ensures
        spec_evaluate(rules, f, conns) == spec_evaluate(rules.subrange(i, rules.len() as int), f, conns),
    decreases i,
{
    if i > 0 {
        assert(rules.drop_first() =~= rules.subrange(1, rules.len() as int));
        lemma_spec_evaluate_skip(rules.drop_first(), f, conns, i - 1);
        assert(rules.drop_first().subrange(i - 1, rules.drop_first().len() as int) =~= rules.subrange(
            i,
            rules.len() as int,
        ));
    } else {
        assert(rules.subrange(0, rules.len() as int) =~= rules);
    }
}

/// Evaluate the ordered rule list against `flow`: the first matching rule
/// decides, no match drops. Only an admitting match inserts `flow` into the
/// cache, so a dropped flow is never marked established.
pub fn evaluate(flow: &Flow, rules: &Vec<Acl>, cache: &mut ConnectionCache) -> (v: Verdict)
    requires
        forall|i: int| 0 <= i < rules@.len() ==> (#[trigger] rules@[i]).wf(),
    ensures
        v == spec_evaluate(rules@, *flow, old(cache)@),
        v == Verdict::Admit ==> final(cache)@ == old(cache)@.insert(*flow),
        v == Verdict::Drop ==> final(cache)@ == old(cache)@,
{
    let mut i: usize = 0;
    while i < rules.len()
        invariant
            0 <= i <= rules@.len(),
            *cache == *old(cache),
            forall|i2: int| 0 <= i2 < rules@.len() ==> (#[trigger] rules@[i2]).wf(),
            forall|j: int| 0 <= j < i ==> !rules@[j].spec_matches(*flow, old(cache)@),
        decreases rules@.len() - i,
    {
        let rule = &rules[i];
        if rule.matches(flow, cache) {
            proof {
                lemma_spec_evaluate_skip(rules@, *flow, old(cache)@, i as int);
                assert(rules@.subrange(i as int, rules@.len() as int)[0] == rules@[i as int]);
            }
            if rule.drop {
                return Verdict::Drop;
            } else {
                cache.insert(*flow);
                return Verdict::Admit;
            }
        }
        i = i + 1;
    }
    proof {
        lemma_spec_evaluate_skip(rules@, *flow, old(cache)@, rules@.len() as int);
    }
    Verdict::Drop
}

/// Evaluate a packet whose flow may not have been extracted. A packet
/// without an extractable flow (non-IPv4 or malformed) bypasses the rules
/// and is admitted: the permissive fallback for traffic outside the
/// model, a deliberate policy and not a default to be changed silently.
/// Every other packet goes through `evaluate`.
pub fn evaluate_packet(flow: Option<Flow>, rules: &Vec<Acl>, cache: &mut ConnectionCache) -> (v:
    Verdict)
    requires
        forall|i: int| 0 <= i < rules@.len() ==> (#[trigger] rules@[i]).wf(),
    ensures
        flow is None ==> v == Verdict::Admit && final(cache)@ == old(cache)@,
        flow matches Some(f) ==> {
            &&& v == spec_evaluate(rules@, f, old(cache)@)
            &&& (v == Verdict::Admit ==> final(cache)@ == old(cache)@.insert(f))
            &&& (v == Verdict::Drop ==> final(cache)@ == old(cache)@)
        },
{
    match flow {
        None => Verdict::Admit,
        Some(f) => evaluate(&f, rules, cache),
    }
}

/// First match wins: if `rules[i]` matches `f` and no earlier rule does,
/// the verdict of the whole list is the verdict of `rules[i]`.
pub proof fn lemma_first_match(rules: Seq<Acl>, f: Flow, conns: Set<Flow>, i: int)
    requires
        0 <= i < rules.len(),
        rules[i].spec_matches(f, conns),
        forall|j: int| 0 <= j < i ==> !rules[j].spec_matches(f, conns),
    ensures
        spec_evaluate(rules, f, conns) == (if rules[i].drop {
            Verdict::Drop
        } else {
            Verdict::Admit
        }),
{
    lemma_spec_evaluate_skip(rules, f, conns, i);
    assert(rules.subrange(i, rules.len() as int)[0] == rules[i]);
}

/// Swapping rules whose matches do not overlap keeps the verdict.
pub proof fn lemma_reorder_single_match(
    r1: Seq<Acl>,
    r2: Seq<Acl>,
    f: Flow,
    conns: Set<Flow>,
    i: int,
    j: int,
)
    requires
        0 <= i < r1.len(),
        0 <= j < r2.len(),
        r1[i] == r2[j],
        r1[i].spec_matches(f, conns),
        forall|k: int| 0 <= k < r1.len() && k != i ==> !r1[k].spec_matches(f, conns),
        forall|k: int| 0 <= k < r2.len() && k != j ==> !r2[k].spec_matches(f, conns),
    ensures
        spec_evaluate(r1, f, conns) == spec_evaluate(r2, f, conns),
{
    lemma_first_match(r1, f, conns, i);
    lemma_first_match(r2, f, conns, j);
}

/// If no rule matches `f`, the list drops it (fail-closed).
pub proof fn lemma_no_match_drops(rules: Seq<Acl>, f: Flow, conns: Set<Flow>)
    requires
        forall|k: int| 0 <= k < rules.len() ==> !rules[k].spec_matches(f, conns),
    ensures
        spec_evaluate(rules, f, conns) == Verdict::Drop,
{
    lemma_spec_evaluate_skip(rules, f, conns, rules.len() as int);
}

/// Established semantics: once `f` has been admitted (the cache holds it),
/// a pure `established: Some(true)` pass rule admits the reply flow
/// `reverse(f)`; before `f` or `reverse(f)` was observed, the same rule
/// drops `reverse(f)`.
pub proof fn lemma_established(pre: Set<Flow>, f: Flow, r: Acl)
    requires
        r == (Acl {
            src_ip: Option::None,
            dst_ip: Option::None,
            src_port: Option::None,
            dst_port: Option::None,
            established: Option::Some(true),
            drop: false,
        }),
    ensures
        spec_evaluate(seq![r], f.spec_reverse(), pre.insert(f)) == Verdict::Admit,
        !pre.contains(f) && !pre.contains(f.spec_reverse()) ==> spec_evaluate(
            seq![r],
            f.spec_reverse(),
            pre,
        ) == Verdict::Drop,
{
    crate::flow::lemma_reverse_involution(f);
    assert(pre.insert(f).contains(f.spec_reverse().spec_reverse()));
    assert(r.spec_matches(f.spec_reverse(), pre.insert(f)));
    if !pre.contains(f) && !pre.contains(f.spec_reverse()) {
        assert(!r.spec_matches(f.spec_reverse(), pre));
        assert(seq![r].drop_first() =~= Seq::<Acl>::empty());
        assert(spec_evaluate(Seq::<Acl>::empty(), f.spec_reverse(), pre) == Verdict::Drop);
    }
}

} // verus!
