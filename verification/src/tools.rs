//! The tool-call listing helpers: the query arguments, the filter the
//! listing applies, and the check on a reported hook kind.

use vstd::prelude::*;
use vstd::string::StringExecFns;
use crate::entity::{ToolCall, ToolCallV};
use crate::error::Error;
use crate::trusted::str_eq;

verus! {

/// Arguments of the tool-call listing command.
#[derive(Debug)]
pub struct ToolsArgs {
    pub branch: Option<String>,
    pub json: bool,
    pub hook_type: Option<String>,
    pub limit: Option<usize>,
}

/// What the listing keeps: the calls whose hook kind matches the
/// requested one (all, when none is requested), cut down to the first
/// `limit` of them when a limit is given.
pub open spec fn spec_filter_calls(
    calls: Seq<ToolCallV>,
    hook: Option<Seq<char>>,
    limit: Option<usize>,
) -> Seq<ToolCallV> {
    let kept = match hook {
        Some(h) => calls.filter(|c: ToolCallV| c.hook_type == h),
        None => calls,
    };
    match limit {
        Some(l) => if l < kept.len() {
            kept.take(l as int)
        } else {
            kept
        },
        None => kept,
    }
}

/// Keeps the calls of the requested hook kind and applies the limit,
/// preserving order.
pub fn filter_tool_calls(
    calls: Vec<ToolCall>,
    hook_type: &Option<String>,
    limit: Option<usize>,
) -> (r: Vec<ToolCall>)
    ensures
        r.deep_view() == spec_filter_calls(calls.deep_view(), hook_type.deep_view(), limit),
{
    broadcast use Seq::lemma_filter_push;
    broadcast use Seq::lemma_take_succ_push;

    let ghost cv = calls.deep_view();
    let mut kept: Vec<ToolCall>;
    match hook_type {
        Some(h) => {
            let mut res: Vec<ToolCall> = Vec::new();
            let n = calls.len();
            let mut i: usize = 0;
            proof {
                assert(res.deep_view() =~= Seq::<ToolCallV>::empty());
                assert(cv.take(0).filter(|c: ToolCallV| c.hook_type == h@) =~= Seq::<
                    ToolCallV,
                >::empty());
            }
            while i < n
                invariant
                    i <= n,
                    n == calls@.len(),
                    cv == calls.deep_view(),
                    res.deep_view() == cv.take(i as int).filter(
                        |c: ToolCallV| c.hook_type == h@,
                    ),
                decreases n - i,
            {
                let ghost prev = res.deep_view();
                let keep_it = str_eq(calls[i].hook_type.as_str(), h.as_str());
                if keep_it {
                    res.push(calls[i].clone());
                }
                proof {
                    let p = |c: ToolCallV| c.hook_type == h@;
                    let tk = cv.take(i as int);
                    let c = cv[i as int];
                    assert(cv.take(i + 1) =~= tk.push(c));
                    tk.lemma_filter_push(c, p);
                    if keep_it {
                        assert(p(c));
                        assert(res.deep_view() =~= prev.push(c));
                    } else {
                        assert(!p(c));
                    }
                }
                i = i + 1;
            }
            proof {
                assert(cv.take(n as int) =~= cv);
            }
            kept = res;
        },
        None => {
            kept = calls;
        },
    }
    match limit {
        Some(l) => {
            let ghost kv = kept.deep_view();
            if l < kept.len() {
                kept.truncate(l);
                proof {
                    assert(kept.deep_view() =~= kv.take(l as int));
                }
            }
        },
        None => (),
    }
    kept
}

/// Checks a reported hook kind: only `pre` and `post` are known.
pub fn validate_hook_type(s: &str) -> (r: Result<(), Error>)
    ensures
        r is Ok <==> (s@ == "pre"@ || s@ == "post"@),
        r matches Err(e) ==> e is InvalidHookType,
{
    if str_eq(s, "pre") || str_eq(s, "post") {
        Ok(())
    } else {
        Err(Error::InvalidHookType(String::from_str(s)))
    }
}


/// The command line a hook runs to report one tool use: the binary,
/// the internal logging command, the entry's identifier, and the hook
/// kind, separated by single spaces.
pub fn hook_command(bin: &str, session_id: &str, kind: &str) -> (r: String)
    ensures
        r@ == bin@ + " __log-tool "@ + session_id@ + " "@ + kind@,
{
    let mut s = String::from_str(bin);
    s.append(" __log-tool ");
    s.append(session_id);
    s.append(" ");
    s.append(kind);
    s
}

} // verus!
