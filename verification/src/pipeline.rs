//! The combined per-packet pipeline: ACL evaluation first, then NAT
//! translation for admitted packets.
use vstd::prelude::*;
use crate::flow::Flow;
use crate::acl::Acl;
use crate::acl::ConnectionCache;
use crate::acl::Verdict;
use crate::acl::evaluate;
use crate::acl::spec_evaluate;
use crate::translator::NatTable;
use crate::translator::translate_post;

verus! {

/// Process one packet through the ACL and, if admitted, the NAT. A packet
/// without an extractable flow is admitted untranslated (the permissive
/// fallback); a dropped packet leaves the table untouched; an admitted
/// one is translated exactly as `translate` states (`translate_post`).
pub fn acl_nat(
    flow: Option<Flow>,
    rules: &Vec<Acl>,
    cache: &mut ConnectionCache,
    table: &mut NatTable,
    now: u64,
) -> (r: (Verdict, Option<Flow>))
    requires
        forall|i: int| 0 <= i < rules@.len() ==> (#[trigger] rules@[i]).wf(),
        old(table).wf(),
    ensures
        final(table).wf(),
        final(table).nat_ip == old(table).nat_ip,
        flow is None ==> r.0 == Verdict::Admit && r.1 is None && final(cache)@ == old(cache)@
            && *final(table) == *old(table),
        flow matches Some(f) ==> {
            &&& r.0 == spec_evaluate(rules@, f, old(cache)@)
            &&& (r.0 == Verdict::Drop ==> r.1 is None && final(cache)@ == old(cache)@
                && *final(table) == *old(table))
            &&& (r.0 == Verdict::Admit ==> {
                &&& final(cache)@ == old(cache)@.insert(f)
                &&& translate_post(*old(table), *final(table), f, now, r.1)
                &&& (r.1 is Some ==> final(table).lookup(f) == r.1)
            })
        },
{
    match flow {
        None => (Verdict::Admit, None),
        Some(f) => {
            let v = evaluate(&f, rules, cache);
            match v {
                Verdict::Admit => {
                    let t = table.translate(f, now);
                    (Verdict::Admit, t)
                },
                Verdict::Drop => (Verdict::Drop, None),
            }
        },
    }
}

} // verus!
