//! Static analysis of formulas before evaluation. Pruning: the arms of `IF`,
//! `IFS` and `SWITCH` that known conditions never take are left out, so that
//! neither their references nor their spill shapes count; whether a condition
//! is known comes from the caller, as answers "true", "false" or "unknown".
//! Spill shapes: the rectangle a formula's array result may cover.
use vstd::prelude::*;
use crate::ast::{spec_fn_name_is, Expr};
use crate::error::SpreadsheetError;
use crate::refs::{a1_range_size, parse_a1, spec_a1_range_size, spec_max, spec_min, spec_parse_a1, CellMap};
use crate::text::{chars_of, spec_upper_seq, upper_chars};

verus! {

/// `r` is `e` with its arms pruned, for answers that `truth` (is a condition
/// known true or false?) and `same` (is a `SWITCH` case known equal to the
/// target?) may give. Leaves are kept; other nodes are rebuilt from pruned
/// children; calls are pruned by [`spec_pruned_call`].
pub open spec fn spec_pruned<F: Fn(&Expr) -> Option<bool>, G: Fn(&Expr, &Expr) -> Option<bool>>(
    truth: F,
    same: G,
    e: Expr,
    r: Expr,
) -> bool
    decreases e, 0int,
{
    match e {
        Expr::Neg(x) => r matches Expr::Neg(y) && spec_pruned(truth, same, *x, *y),
        Expr::Intersect(x) => r matches Expr::Intersect(y) && spec_pruned(truth, same, *x, *y),
        Expr::BinOp { op, left, right } => r matches Expr::BinOp { op: o2, left: l2, right: r2 } && o2 == op
            && spec_pruned(truth, same, *left, *l2) && spec_pruned(truth, same, *right, *r2),
        Expr::CmpOp { op, left, right } => r matches Expr::CmpOp { op: o2, left: l2, right: r2 } && o2 == op
            && spec_pruned(truth, same, *left, *l2) && spec_pruned(truth, same, *right, *r2),
        Expr::Call { name, args } => spec_pruned_call(truth, same, name, args@, r),
        _ => r == e,
    }
}

/// Entries `i..` of `out` are the pruned entries of `args`.
pub open spec fn spec_pruned_seq<F: Fn(&Expr) -> Option<bool>, G: Fn(&Expr, &Expr) -> Option<bool>>(
    truth: F,
    same: G,
    args: Seq<Expr>,
    out: Seq<Expr>,
    i: int,
) -> bool
    decreases args, args.len() - i,
{
    if 0 <= i < args.len() {
        spec_pruned(truth, same, args[i], out[i]) && spec_pruned_seq(truth, same, args, out, i + 1)
    } else {
        true
    }
}

/// `r` is the call `name(args)` with every argument pruned and none left out.
pub open spec fn spec_rebuilt<F: Fn(&Expr) -> Option<bool>, G: Fn(&Expr, &Expr) -> Option<bool>>(
    truth: F,
    same: G,
    name: String,
    args: Seq<Expr>,
    r: Expr,
) -> bool
    decreases args, args.len() + 1,
{
    r matches Expr::Call { name: n2, args: a2 } && n2 == name && a2@.len() == args.len() && spec_pruned_seq(
        truth,
        same,
        args,
        a2@,
        0,
    )
}

/// A pruned call. `IF(c, a, b)` with `c` known becomes its taken arm; `IFS`
/// (see [`spec_pruned_ifs`]) and `SWITCH` (see [`spec_pruned_switch`]) drop
/// the arms that known conditions never take; anything else is rebuilt.
pub open spec fn spec_pruned_call<F: Fn(&Expr) -> Option<bool>, G: Fn(&Expr, &Expr) -> Option<bool>>(
    truth: F,
    same: G,
    name: String,
    args: Seq<Expr>,
    r: Expr,
) -> bool
    decreases args, 3 * args.len() + 3,
{
    if spec_fn_name_is(name@, seq!['I', 'F']) && args.len() == 3 {
        exists|a: Option<bool>|
            #[trigger] call_ensures(truth, (&args[0],), a) && if a == Some(true) {
                spec_pruned(truth, same, args[1], r)
            } else if a == Some(false) {
                spec_pruned(truth, same, args[2], r)
            } else {
                spec_rebuilt(truth, same, name, args, r)
            }
    } else if spec_fn_name_is(name@, seq!['I', 'F', 'S']) && args.len() >= 2 && args.len() % 2 == 0 {
        spec_pruned_ifs(truth, same, name, args, 0, 0, r)
    } else if spec_fn_name_is(name@, seq!['S', 'W', 'I', 'T', 'C', 'H']) && args.len() >= 1 {
        spec_pruned_switch(truth, same, name, args, 1, r)
    } else {
        spec_rebuilt(truth, same, name, args, r)
    }
}

/// `IFS` from the pair at `t`, with `k` pruned arguments kept so far (they
/// open the arguments of the result): a pair whose condition is known false
/// is dropped; the first known true one ends the call (alone it is the whole
/// result); an unknown one is kept, pruned. With nothing kept at the end the
/// call is rebuilt.
pub open spec fn spec_pruned_ifs<F: Fn(&Expr) -> Option<bool>, G: Fn(&Expr, &Expr) -> Option<bool>>(
    truth: F,
    same: G,
    name: String,
    args: Seq<Expr>,
    t: int,
    k: int,
    r: Expr,
) -> bool
    decreases args, 2 * args.len() + 2 - t,
{
    if t < 0 || t > args.len() {
        false
    } else if t + 1 >= args.len() {
        if k > 0 {
            r matches Expr::Call { name: n2, args: a2 } && n2 == name && a2@.len() == k
        } else {
            spec_rebuilt(truth, same, name, args, r)
        }
    } else {
        exists|a: Option<bool>|
            #[trigger] call_ensures(truth, (&args[t],), a) && if a == Some(false) {
                spec_pruned_ifs(truth, same, name, args, t + 2, k, r)
            } else if a == Some(true) && k == 0 {
                spec_pruned(truth, same, args[t + 1], r)
            } else {
                &&& r matches Expr::Call { name: n2, args: a2 } && n2 == name && a2@.len() >= k + 2
                    && spec_pruned(truth, same, args[t], a2@[k]) && spec_pruned(truth, same, args[t + 1], a2@[k + 1])
                &&& if a == Some(true) {
                    r->Call_args@.len() == k + 2
                } else {
                    spec_pruned_ifs(truth, same, name, args, t + 2, k + 2, r)
                }
            }
    }
}

/// `SWITCH(target, case1, value1, …, [default])` from the case at `j`: the
/// first case known equal to the target gives its pruned value; a case known
/// different is passed over; an unknown one keeps the whole call. When every
/// case is known different, the pruned default (if any) is the result.
pub open spec fn spec_pruned_switch<F: Fn(&Expr) -> Option<bool>, G: Fn(&Expr, &Expr) -> Option<bool>>(
    truth: F,
    same: G,
    name: String,
    args: Seq<Expr>,
    j: int,
    r: Expr,
) -> bool
    decreases args, 2 * args.len() + 2 - j,
{
    if j < 1 || j > args.len() {
        false
    } else if j + 1 >= args.len() {
        if args.len() % 2 == 0 {
            spec_pruned(truth, same, args[args.len() - 1], r)
        } else {
            spec_rebuilt(truth, same, name, args, r)
        }
    } else {
        exists|a: Option<bool>|
            #[trigger] call_ensures(same, (&args[0], &args[j]), a) && if a == Some(true) {
                spec_pruned(truth, same, args[j + 1], r)
            } else if a == Some(false) {
                spec_pruned_switch(truth, same, name, args, j + 2, r)
            } else {
                spec_rebuilt(truth, same, name, args, r)
            }
    }
}

/// Whether `u` spells `target`.
fn spells(u: &Vec<char>, target: &Vec<char>) -> (r: bool)
    ensures
        r == (u@ == target@),
{
    if u.len() != target.len() {
        return false;
    }
    let mut i: usize = 0;
    while i < u.len()
        invariant
            u@.len() == target@.len(),
            i <= u@.len(),
            forall|k: int| 0 <= k < i ==> u@[k] == target@[k],
        decreases u.len() - i,
    {
        if u[i] != target[i] {
            return false;
        }
        i += 1;
    }
    proof {
        assert(u@ =~= target@);
    }
    true
}

/// `e` with the arms that known conditions never take left out (see
/// [`spec_pruned`]). `truth(c)` tells whether a condition is known true
/// (`Some(true)`), known false (`Some(false)`) or unknown (`None`);
/// `same(t, c)` tells the same of a `SWITCH` case `c` equalling the target `t`.
pub fn prune_arms<F: Fn(&Expr) -> Option<bool>, G: Fn(&Expr, &Expr) -> Option<bool>>(
    expr: &Expr,
    truth: F,
    same: G,
) -> (r: Expr)
    requires
        forall|x: &Expr| call_requires(truth, (x,)),
        forall|x: &Expr, y: &Expr| call_requires(same, (x, y)),
    ensures
        spec_pruned(truth, same, *expr, r),
{
    prune(expr, &truth, &same)
}

fn prune<F: Fn(&Expr) -> Option<bool>, G: Fn(&Expr, &Expr) -> Option<bool>>(e: &Expr, truth: &F, same: &G) -> (r: Expr)
    requires
        forall|x: &Expr| call_requires(*truth, (x,)),
        forall|x: &Expr, y: &Expr| call_requires(*same, (x, y)),
    ensures
        spec_pruned(*truth, *same, *e, r),
    decreases *e, 0int,
{
    match e {
        Expr::Number(t) => Expr::Number(t.clone()),
        Expr::Cell(n) => Expr::Cell(n.clone()),
        Expr::Range { start, end } => Expr::Range { start: start.clone(), end: end.clone() },
        Expr::SpillRef(n) => Expr::SpillRef(n.clone()),
        Expr::Str(t) => Expr::Str(t.clone()),
        Expr::Neg(x) => Expr::Neg(Box::new(prune(x, truth, same))),
        Expr::Intersect(x) => Expr::Intersect(Box::new(prune(x, truth, same))),
        Expr::BinOp { op, left, right } => Expr::BinOp {
            op: *op,
            left: Box::new(prune(left, truth, same)),
            right: Box::new(prune(right, truth, same)),
        },
        Expr::CmpOp { op, left, right } => Expr::CmpOp {
            op: *op,
            left: Box::new(prune(left, truth, same)),
            right: Box::new(prune(right, truth, same)),
        },
        Expr::Call { name, args } => prune_call(name, args, truth, same),
    }
}

/// Every argument pruned, from `i` on, after the pruned ones in `out`.
fn prune_seq<F: Fn(&Expr) -> Option<bool>, G: Fn(&Expr, &Expr) -> Option<bool>>(
    args: &Vec<Expr>,
    i: usize,
    out: Vec<Expr>,
    truth: &F,
    same: &G,
) -> (r: Vec<Expr>)
    requires
        forall|x: &Expr| call_requires(*truth, (x,)),
        forall|x: &Expr, y: &Expr| call_requires(*same, (x, y)),
        i <= args@.len(),
        out@.len() == i,
        forall|k: int| 0 <= k < i ==> #[trigger] spec_pruned(*truth, *same, args@[k], out@[k]),
    ensures
        r@.len() == args@.len(),
        forall|k: int| 0 <= k < args@.len() ==> #[trigger] spec_pruned(*truth, *same, args@[k], r@[k]),
    decreases args@, args@.len() - i,
{
    if i >= args.len() {
        return out;
    }
    let mut out = out;
    let ghost before = out@;
    let p = prune(&args[i], truth, same);
    out.push(p);
    proof {
        assert forall|k: int| 0 <= k < i + 1 implies #[trigger] spec_pruned(*truth, *same, args@[k], out@[k]) by {
            if k < i {
                assert(out@[k] == before[k]);
            }
        }
    }
    prune_seq(args, i + 1, out, truth, same)
}

proof fn lemma_pruned_seq<F: Fn(&Expr) -> Option<bool>, G: Fn(&Expr, &Expr) -> Option<bool>>(
    truth: F,
    same: G,
    args: Seq<Expr>,
    out: Seq<Expr>,
    i: int,
)
    requires
        0 <= i <= args.len(),
        forall|k: int| 0 <= k < args.len() ==> #[trigger] spec_pruned(truth, same, args[k], out[k]),
    ensures
        spec_pruned_seq(truth, same, args, out, i),
    decreases args.len() - i,
{
    if i < args.len() {
        assert(spec_pruned(truth, same, args[i], out[i]));
        lemma_pruned_seq(truth, same, args, out, i + 1);
    }
}

/// The call rebuilt from its pruned arguments.
fn rebuild<F: Fn(&Expr) -> Option<bool>, G: Fn(&Expr, &Expr) -> Option<bool>>(
    name: &String,
    args: &Vec<Expr>,
    truth: &F,
    same: &G,
) -> (r: Expr)
    requires
        forall|x: &Expr| call_requires(*truth, (x,)),
        forall|x: &Expr, y: &Expr| call_requires(*same, (x, y)),
    ensures
        spec_rebuilt(*truth, *same, *name, args@, r),
    decreases args@, args@.len() + 1,
{
    let out = prune_seq(args, 0, Vec::new(), truth, same);
    proof {
        lemma_pruned_seq(*truth, *same, args@, out@, 0);
    }
    Expr::Call { name: name.clone(), args: out }
}

fn prune_call<F: Fn(&Expr) -> Option<bool>, G: Fn(&Expr, &Expr) -> Option<bool>>(
    name: &String,
    args: &Vec<Expr>,
    truth: &F,
    same: &G,
) -> (r: Expr)
    requires
        forall|x: &Expr| call_requires(*truth, (x,)),
        forall|x: &Expr, y: &Expr| call_requires(*same, (x, y)),
    ensures
        spec_pruned_call(*truth, *same, *name, args@, r),
    decreases args@, 3 * args@.len() + 3,
{
    let upper = upper_chars(&chars_of(name.as_str()));
    let if_name: Vec<char> = vec!['I', 'F'];
    let ifs_name: Vec<char> = vec!['I', 'F', 'S'];
    let switch_name: Vec<char> = vec!['S', 'W', 'I', 'T', 'C', 'H'];
    proof {
        assert(if_name@ =~= seq!['I', 'F']);
        assert(ifs_name@ =~= seq!['I', 'F', 'S']);
        assert(switch_name@ =~= seq!['S', 'W', 'I', 'T', 'C', 'H']);
    }
    if spells(&upper, &if_name) && args.len() == 3 {
        let a = truth(&args[0]);
        match a {
            Some(true) => prune(&args[1], truth, same),
            Some(false) => prune(&args[2], truth, same),
            None => rebuild(name, args, truth, same),
        }
    } else if spells(&upper, &ifs_name) && args.len() >= 2 && args.len() % 2 == 0 {
        prune_ifs(name, args, 0, Vec::new(), truth, same)
    } else if spells(&upper, &switch_name) && args.len() >= 1 {
        prune_switch(name, args, 1, truth, same)
    } else {
        rebuild(name, args, truth, same)
    }
}

fn prune_ifs<F: Fn(&Expr) -> Option<bool>, G: Fn(&Expr, &Expr) -> Option<bool>>(
    name: &String,
    args: &Vec<Expr>,
    t: usize,
    kept: Vec<Expr>,
    truth: &F,
    same: &G,
) -> (r: Expr)
    requires
        forall|x: &Expr| call_requires(*truth, (x,)),
        forall|x: &Expr, y: &Expr| call_requires(*same, (x, y)),
        t <= args@.len(),
    ensures
        spec_pruned_ifs(*truth, *same, *name, args@, t as int, kept@.len() as int, r),
        kept@.len() > 0 ==> (r matches Expr::Call { name: n2, args: a2 } && n2 == *name && a2@.len() >= kept@.len() && a2@.subrange(
            0,
            kept@.len() as int,
        ) == kept@),
    decreases args@, 2 * args@.len() + 2 - t,
{
    let ghost k0 = kept@;
    if args.len() - t <= 1 {
        if kept.len() > 0 {
            let r = Expr::Call { name: name.clone(), args: kept };
            proof {
                assert(r->Call_args@.subrange(0, k0.len() as int) =~= k0);
            }
            return r;
        } else {
            return rebuild(name, args, truth, same);
        }
    }
    let a = truth(&args[t]);
    match a {
        Some(false) => {
            let r = prune_ifs(name, args, t + 2, kept, truth, same);
            proof {
                assert(call_ensures(*truth, (&args@[t as int],), a));
                assert(spec_pruned_ifs(*truth, *same, *name, args@, t as int, k0.len() as int, r));
            }
            r
        },
        Some(true) => {
            if kept.len() == 0 {
                let r = prune(&args[t + 1], truth, same);
                proof {
                    assert(call_ensures(*truth, (&args@[t as int],), a));
                    assert(spec_pruned_ifs(*truth, *same, *name, args@, t as int, k0.len() as int, r));
                }
                r
            } else {
                let pc = prune(&args[t], truth, same);
                let pv = prune(&args[t + 1], truth, same);
                let mut kept = kept;
                kept.push(pc);
                kept.push(pv);
                let r = Expr::Call { name: name.clone(), args: kept };
                proof {
                    let a2 = r->Call_args@;
                    assert(a2.subrange(0, k0.len() as int) =~= k0);
                    assert(a2[k0.len() as int] == pc && a2[k0.len() + 1int] == pv);
                    assert(call_ensures(*truth, (&args@[t as int],), a));
                    assert(spec_pruned_ifs(*truth, *same, *name, args@, t as int, k0.len() as int, r));
                }
                r
            }
        },
        None => {
            let pc = prune(&args[t], truth, same);
            let pv = prune(&args[t + 1], truth, same);
            let ghost (gc, gv) = (pc, pv);
            let mut kept = kept;
            kept.push(pc);
            kept.push(pv);
            let ghost k2 = kept@;
            let r = prune_ifs(name, args, t + 2, kept, truth, same);
            proof {
                let a2 = r->Call_args@;
                assert(k2 == k0.push(gc).push(gv));
                assert(a2.subrange(0, k2.len() as int) == k2);
                assert(a2[k0.len() as int] == a2.subrange(0, k2.len() as int)[k0.len() as int]);
                assert(a2[k0.len() + 1int] == a2.subrange(0, k2.len() as int)[k0.len() + 1int]);
                assert(a2[k0.len() as int] == gc && a2[k0.len() + 1int] == gv);
                assert(a2.subrange(0, k0.len() as int) =~= k0) by {
                    assert forall|i: int| 0 <= i < k0.len() implies a2.subrange(0, k0.len() as int)[i] == k0[i] by {
                        assert(a2[i] == a2.subrange(0, k2.len() as int)[i]);
                        assert(k2[i] == k0[i]);
                    }
                }
                assert(call_ensures(*truth, (&args@[t as int],), a));
                assert(spec_pruned_ifs(*truth, *same, *name, args@, t as int, k0.len() as int, r));
            }
            r
        },
    }
}

fn prune_switch<F: Fn(&Expr) -> Option<bool>, G: Fn(&Expr, &Expr) -> Option<bool>>(
    name: &String,
    args: &Vec<Expr>,
    j: usize,
    truth: &F,
    same: &G,
) -> (r: Expr)
    requires
        forall|x: &Expr| call_requires(*truth, (x,)),
        forall|x: &Expr, y: &Expr| call_requires(*same, (x, y)),
        1 <= j <= args@.len(),
    ensures
        spec_pruned_switch(*truth, *same, *name, args@, j as int, r),
    decreases args@, 2 * args@.len() + 2 - j,
{
    if args.len() - j <= 1 {
        if args.len() % 2 == 0 {
            return prune(&args[args.len() - 1], truth, same);
        } else {
            return rebuild(name, args, truth, same);
        }
    }
    let a = same(&args[0], &args[j]);
    match a {
        Some(true) => prune(&args[j + 1], truth, same),
        Some(false) => prune_switch(name, args, j + 2, truth, same),
        None => rebuild(name, args, truth, same),
    }
}

/// `IF(c, a, b)` whose condition is known true prunes to its second argument,
/// pruned, and one whose condition is known false to its third: the arm not
/// taken is gone.
pub proof fn lemma_if_known_condition<F: Fn(&Expr) -> Option<bool>, G: Fn(&Expr, &Expr) -> Option<bool>>(
    truth: F,
    same: G,
    name: String,
    args: Vec<Expr>,
    r: Expr,
)
    requires
        spec_fn_name_is(name@, seq!['I', 'F']),
        args@.len() == 3,
        spec_pruned(truth, same, Expr::Call { name, args }, r),
    ensures
        (forall|a: Option<bool>| #[trigger] call_ensures(truth, (&args@[0],), a) ==> a == Some(true))
            ==> spec_pruned(truth, same, args@[1], r),
        (forall|a: Option<bool>| #[trigger] call_ensures(truth, (&args@[0],), a) ==> a == Some(false))
            ==> spec_pruned(truth, same, args@[2], r),
{
    assert(spec_pruned_call(truth, same, name, args@, r));
}

/// `SWITCH(t, c, v, …)` whose first case is known equal to the target prunes
/// to that case's value, pruned.
pub proof fn lemma_switch_first_case_matches<F: Fn(&Expr) -> Option<bool>, G: Fn(&Expr, &Expr) -> Option<bool>>(
    truth: F,
    same: G,
    name: String,
    args: Vec<Expr>,
    r: Expr,
)
    requires
        spec_fn_name_is(name@, seq!['S', 'W', 'I', 'T', 'C', 'H']),
        args@.len() >= 3,
        spec_pruned(truth, same, Expr::Call { name, args }, r),
        forall|a: Option<bool>| #[trigger] call_ensures(same, (&args@[0], &args@[1]), a) ==> a == Some(true),
    ensures
        spec_pruned(truth, same, args@[2], r),
{
    assert(!spec_fn_name_is(name@, seq!['I', 'F'])) by {
        assert(spec_upper_seq(name@).len() == 6);
    }
    assert(!spec_fn_name_is(name@, seq!['I', 'F', 'S'])) by {
        assert(spec_upper_seq(name@).len() == 6);
    }
    assert(spec_pruned_call(truth, same, name, args@, r));
    assert(spec_pruned_switch(truth, same, name, args@, 1, r));
}

// ---------------------------------------------------------------------------
// Spill shapes
// ---------------------------------------------------------------------------

/// Nesting beyond which a shape is taken as unknown (no spill).
pub const MAX_SHAPE_DEPTH: usize = 64;

/// The larger of two shapes, per dimension; a single value counts as none.
pub open spec fn spec_larger(a: Option<(usize, usize)>, b: Option<(usize, usize)>) -> Option<(usize, usize)> {
    match (a, b) {
        (Some((h1, w1)), Some((h2, w2))) => Some(
            (
                if h1 >= h2 {
                    h1
                } else {
                    h2
                },
                if w1 >= w2 {
                    w1
                } else {
                    w2
                },
            ),
        ),
        (Some(x), None) => Some(x),
        (None, y) => y,
    }
}

/// Whether shape `a` fits in `h` rows and `w` columns (a single value fits
/// anywhere).
pub open spec fn spec_fits_in(a: Option<(usize, usize)>, h: int, w: int) -> bool {
    match a {
        Some((x, y)) => x <= h && y <= w,
        None => true,
    }
}

/// The larger of two shapes is the smallest rectangle that holds both: it is
/// a shape when either is, and it fits in a rectangle exactly when both do.
pub proof fn lemma_larger_is_smallest_cover(a: Option<(usize, usize)>, b: Option<(usize, usize)>)
    ensures
        spec_larger(a, b) is Some <==> (a is Some || b is Some),
        forall|h: int, w: int|
            #[trigger] spec_fits_in(spec_larger(a, b), h, w) <==> (spec_fits_in(a, h, w) && spec_fits_in(b, h, w)),
{
}

/// Marks a shape result, so that a proof can name it.
pub open spec fn spec_shape_step(r: Result<Option<(usize, usize)>, SpreadsheetError>) -> bool {
    true
}

/// `r` is the rectangle (rows, columns) that formula `e` may spill over at
/// nesting `depth`, with `asts` the formulas of the sheet and `size` giving a
/// `SEQUENCE` call's shape; `None` is a single value. A `SEQUENCE` call is
/// `size`'s answer; `FILTER`, `UNIQUE` and `SORT` take the shape of their
/// first argument (see [`spec_array_shape`]); `LET` that of its calculation;
/// `IF` (after the condition), `IFERROR`, `IFS` and `SWITCH` and the
/// operators the larger of their arguments' shapes; a negation its operand's.
/// Anything else, and anything nested deeper than [`MAX_SHAPE_DEPTH`], is a
/// single value.
pub open spec fn spec_shape<F: Fn(&Expr) -> Option<(usize, usize)>>(
    asts: Map<Seq<char>, Expr>,
    size: F,
    e: Expr,
    depth: int,
    r: Result<Option<(usize, usize)>, SpreadsheetError>,
) -> bool
    decreases 65 - depth, 2int, 0int,
{
    if depth < 0 || depth > 64 {
        r == Ok::<Option<(usize, usize)>, SpreadsheetError>(None)
    } else {
        match e {
            Expr::Call { name, args } => if spec_fn_name_is(name@, seq!['S', 'E', 'Q', 'U', 'E', 'N', 'C', 'E']) {
                exists|s: Option<(usize, usize)>|
                    #[trigger] call_ensures(size, (&e,), s) && r == Ok::<Option<(usize, usize)>, SpreadsheetError>(s)
            } else if spec_fn_name_is(name@, seq!['F', 'I', 'L', 'T', 'E', 'R']) || spec_fn_name_is(
                name@,
                seq!['U', 'N', 'I', 'Q', 'U', 'E'],
            ) || spec_fn_name_is(name@, seq!['S', 'O', 'R', 'T']) {
                if args@.len() > 0 {
                    spec_array_shape(asts, size, args@[0], depth, r)
                } else {
                    r == Ok::<Option<(usize, usize)>, SpreadsheetError>(None)
                }
            } else if spec_fn_name_is(name@, seq!['L', 'E', 'T']) {
                if args@.len() >= 3 {
                    spec_shape(asts, size, args@[args@.len() - 1], depth + 1, r)
                } else {
                    r == Ok::<Option<(usize, usize)>, SpreadsheetError>(None)
                }
            } else if spec_fn_name_is(name@, seq!['I', 'F']) {
                spec_shape_fold(asts, size, args@, 1, depth, None, r)
            } else if spec_fn_name_is(name@, seq!['I', 'F', 'E', 'R', 'R', 'O', 'R']) || spec_fn_name_is(
                name@,
                seq!['I', 'F', 'S'],
            ) || spec_fn_name_is(name@, seq!['S', 'W', 'I', 'T', 'C', 'H']) {
                spec_shape_fold(asts, size, args@, 0, depth, None, r)
            } else {
                r == Ok::<Option<(usize, usize)>, SpreadsheetError>(None)
            },
            Expr::BinOp { op: _, left, right } => spec_shape_fold(asts, size, seq![*left, *right], 0, depth, None, r),
            Expr::CmpOp { op: _, left, right } => spec_shape_fold(asts, size, seq![*left, *right], 0, depth, None, r),
            Expr::Neg(x) => spec_shape(asts, size, *x, depth + 1, r),
            _ => r == Ok::<Option<(usize, usize)>, SpreadsheetError>(None),
        }
    }
}

/// The shape of an array argument: a range is its rectangle (a single cell
/// is none; a corner that is no A1 cell is `#VALUE!`; the errors of
/// [`a1_range_size`]); `A1#` is the shape of that cell's formula (none when it
/// has no formula); anything else is its own shape one level deeper.
pub open spec fn spec_array_shape<F: Fn(&Expr) -> Option<(usize, usize)>>(
    asts: Map<Seq<char>, Expr>,
    size: F,
    arg: Expr,
    depth: int,
    r: Result<Option<(usize, usize)>, SpreadsheetError>,
) -> bool
    decreases 65 - depth, 1int, 0int,
{
    if depth < 0 || depth > 64 {
        false
    } else {
        match arg {
            Expr::Range { start, end } => match (spec_parse_a1(start@), spec_parse_a1(end@)) {
                (Some((c1, r1)), Some((c2, r2))) => match spec_a1_range_size(start@, end@) {
                    Err(x) => r == Err::<Option<(usize, usize)>, SpreadsheetError>(x),
                    Ok(_) => {
                        let h = spec_max(r1 as int, r2 as int) - spec_min(r1 as int, r2 as int) + 1;
                        let w = spec_max(c1 as int, c2 as int) - spec_min(c1 as int, c2 as int) + 1;
                        r == Ok::<Option<(usize, usize)>, SpreadsheetError>(
                            if h == 1 && w == 1 {
                                None
                            } else {
                                Some((h as usize, w as usize))
                            },
                        )
                    },
                },
                _ => r == Err::<Option<(usize, usize)>, SpreadsheetError>(SpreadsheetError::Value),
            },
            Expr::SpillRef(a) => if asts.contains_key(a@) {
                spec_shape(asts, size, asts[a@], depth + 1, r)
            } else {
                r == Ok::<Option<(usize, usize)>, SpreadsheetError>(None)
            },
            _ => spec_shape(asts, size, arg, depth + 1, r),
        }
    }
}

/// The larger of `acc` and the shapes of `args[i..]`, each one level deeper;
/// the first error stops it.
pub open spec fn spec_shape_fold<F: Fn(&Expr) -> Option<(usize, usize)>>(
    asts: Map<Seq<char>, Expr>,
    size: F,
    args: Seq<Expr>,
    i: int,
    depth: int,
    acc: Option<(usize, usize)>,
    r: Result<Option<(usize, usize)>, SpreadsheetError>,
) -> bool
    decreases 65 - depth, 0int, args.len() - i,
{
    if depth < 0 || depth > 64 {
        false
    } else if i < 0 || i >= args.len() {
        r == Ok::<Option<(usize, usize)>, SpreadsheetError>(acc)
    } else {
        exists|r1: Result<Option<(usize, usize)>, SpreadsheetError>|
            #[trigger] spec_shape_step(r1) && spec_shape(asts, size, args[i], depth + 1, r1) && match r1 {
                Err(x) => r == Err::<Option<(usize, usize)>, SpreadsheetError>(x),
                Ok(s) => spec_shape_fold(asts, size, args, i + 1, depth, spec_larger(acc, s), r),
            }
    }
}

fn larger(a: Option<(usize, usize)>, b: Option<(usize, usize)>) -> (r: Option<(usize, usize)>)
    ensures
        r == spec_larger(a, b),
{
    match (a, b) {
        (Some((h1, w1)), Some((h2, w2))) => Some(
            (
                if h1 >= h2 {
                    h1
                } else {
                    h2
                },
                if w1 >= w2 {
                    w1
                } else {
                    w2
                },
            ),
        ),
        (Some(x), None) => Some(x),
        (None, y) => y,
    }
}

/// The rectangle (rows, columns) formula `expr` may spill over at nesting
/// `depth` (see [`spec_shape`]); `asts` holds the sheet's formulas and
/// `sequence_size` gives the shape of a `SEQUENCE` call.
pub fn spill_shape<F: Fn(&Expr) -> Option<(usize, usize)>>(
    expr: &Expr,
    asts: &CellMap<Expr>,
    sequence_size: F,
    depth: usize,
) -> (r: Result<Option<(usize, usize)>, SpreadsheetError>)
    requires
        forall|x: &Expr| call_requires(sequence_size, (x,)),
    ensures
        spec_shape(asts@, sequence_size, *expr, depth as int, r),
{
    shape(expr, asts, &sequence_size, depth)
}

fn shape<F: Fn(&Expr) -> Option<(usize, usize)>>(e: &Expr, asts: &CellMap<Expr>, size: &F, depth: usize) -> (r: Result<
    Option<(usize, usize)>,
    SpreadsheetError,
>)
    requires
        forall|x: &Expr| call_requires(*size, (x,)),
    ensures
        spec_shape(asts@, *size, *e, depth as int, r),
    decreases 65 - depth, 2int, 0int,
{
    if depth > MAX_SHAPE_DEPTH {
        return Ok(None);
    }
    match e {
        Expr::Call { name, args } => {
            let upper = upper_chars(&chars_of(name.as_str()));
            let sequence_name: Vec<char> = vec!['S', 'E', 'Q', 'U', 'E', 'N', 'C', 'E'];
            let filter_name: Vec<char> = vec!['F', 'I', 'L', 'T', 'E', 'R'];
            let unique_name: Vec<char> = vec!['U', 'N', 'I', 'Q', 'U', 'E'];
            let sort_name: Vec<char> = vec!['S', 'O', 'R', 'T'];
            let let_name: Vec<char> = vec!['L', 'E', 'T'];
            let if_name: Vec<char> = vec!['I', 'F'];
            let iferror_name: Vec<char> = vec!['I', 'F', 'E', 'R', 'R', 'O', 'R'];
            let ifs_name: Vec<char> = vec!['I', 'F', 'S'];
            let switch_name: Vec<char> = vec!['S', 'W', 'I', 'T', 'C', 'H'];
            proof {
                assert(sequence_name@ =~= seq!['S', 'E', 'Q', 'U', 'E', 'N', 'C', 'E']);
                assert(filter_name@ =~= seq!['F', 'I', 'L', 'T', 'E', 'R']);
                assert(unique_name@ =~= seq!['U', 'N', 'I', 'Q', 'U', 'E']);
                assert(sort_name@ =~= seq!['S', 'O', 'R', 'T']);
                assert(let_name@ =~= seq!['L', 'E', 'T']);
                assert(if_name@ =~= seq!['I', 'F']);
                assert(iferror_name@ =~= seq!['I', 'F', 'E', 'R', 'R', 'O', 'R']);
                assert(ifs_name@ =~= seq!['I', 'F', 'S']);
                assert(switch_name@ =~= seq!['S', 'W', 'I', 'T', 'C', 'H']);
            }
            if spells(&upper, &sequence_name) {
                let s = size(e);
                Ok(s)
            } else if spells(&upper, &filter_name) || spells(&upper, &unique_name) || spells(&upper, &sort_name) {
                if args.len() > 0 {
                    array_shape(&args[0], asts, size, depth)
                } else {
                    Ok(None)
                }
            } else if spells(&upper, &let_name) {
                if args.len() >= 3 {
                    shape(&args[args.len() - 1], asts, size, depth + 1)
                } else {
                    Ok(None)
                }
            } else if spells(&upper, &if_name) {
                shape_fold(args, 1, asts, size, depth, None)
            } else if spells(&upper, &iferror_name) || spells(&upper, &ifs_name) || spells(&upper, &switch_name) {
                shape_fold(args, 0, asts, size, depth, None)
            } else {
                Ok(None)
            }
        },
        Expr::BinOp { op: _, left, right } => shape_pair(left, right, asts, size, depth),
        Expr::CmpOp { op: _, left, right } => shape_pair(left, right, asts, size, depth),
        Expr::Neg(x) => shape(x, asts, size, depth + 1),
        _ => Ok(None),
    }
}

/// The larger shape of two operands.
fn shape_pair<F: Fn(&Expr) -> Option<(usize, usize)>>(
    left: &Expr,
    right: &Expr,
    asts: &CellMap<Expr>,
    size: &F,
    depth: usize,
) -> (r: Result<Option<(usize, usize)>, SpreadsheetError>)
    requires
        forall|x: &Expr| call_requires(*size, (x,)),
        depth <= MAX_SHAPE_DEPTH,
    ensures
        spec_shape_fold(asts@, *size, seq![*left, *right], 0, depth as int, None, r),
    decreases 65 - depth, 1int, 0int,
{
    let ghost pair = seq![*left, *right];
    let r1 = shape(left, asts, size, depth + 1);
    proof {
        assert(spec_shape_step(r1));
        assert(pair[0] == *left && pair[1] == *right);
    }
    match r1 {
        Err(x) => Err(x),
        Ok(a) => {
            let r2 = shape(right, asts, size, depth + 1);
            proof {
                assert(spec_shape_step(r2));
            }
            match r2 {
                Err(x) => {
                    proof {
                        assert(spec_shape_fold(asts@, *size, pair, 1, depth as int, spec_larger(None, a), Err(x)));
                    }
                    Err(x)
                },
                Ok(b) => {
                    let r = larger(a, b);
                    proof {
                        assert(spec_larger(None, a) == a);
                        assert(spec_shape_fold(asts@, *size, pair, 2, depth as int, spec_larger(a, b), Ok(r)));
                        assert(spec_shape_fold(asts@, *size, pair, 1, depth as int, a, Ok(r)));
                    }
                    Ok(r)
                },
            }
        },
    }
}

/// The shape of an array argument (see [`spec_array_shape`]).
fn array_shape<F: Fn(&Expr) -> Option<(usize, usize)>>(
    arg: &Expr,
    asts: &CellMap<Expr>,
    size: &F,
    depth: usize,
) -> (r: Result<Option<(usize, usize)>, SpreadsheetError>)
    requires
        forall|x: &Expr| call_requires(*size, (x,)),
        depth <= MAX_SHAPE_DEPTH,
    ensures
        spec_array_shape(asts@, *size, *arg, depth as int, r),
    decreases 65 - depth, 1int, 0int,
{
    match arg {
        Expr::Range { start, end } => {
            let (c1, r1) = match parse_a1(start.as_str()) {
                Some(p) => p,
                None => {
                    return Err(SpreadsheetError::Value);
                },
            };
            let (c2, r2) = match parse_a1(end.as_str()) {
                Some(p) => p,
                None => {
                    return Err(SpreadsheetError::Value);
                },
            };
            match a1_range_size(start.as_str(), end.as_str()) {
                Err(x) => {
                    return Err(x);
                },
                Ok(_) => {},
            }
            let h: u64 = (if r1 >= r2 {
                r1 - r2
            } else {
                r2 - r1
            }) as u64 + 1;
            let w: u64 = (if c1 >= c2 {
                c1 - c2
            } else {
                c2 - c1
            }) as u64 + 1;
            if h == 1 && w == 1 {
                Ok(None)
            } else {
                Ok(Some((h as usize, w as usize)))
            }
        },
        Expr::SpillRef(a) => match asts.get(a.as_str()) {
            Some(e) => shape(e, asts, size, depth + 1),
            None => Ok(None),
        },
        _ => shape(arg, asts, size, depth + 1),
    }
}

/// The larger of `acc` and the shapes of `args[i..]` (see [`spec_shape_fold`]).
fn shape_fold<F: Fn(&Expr) -> Option<(usize, usize)>>(
    args: &Vec<Expr>,
    i: usize,
    asts: &CellMap<Expr>,
    size: &F,
    depth: usize,
    acc: Option<(usize, usize)>,
) -> (r: Result<Option<(usize, usize)>, SpreadsheetError>)
    requires
        forall|x: &Expr| call_requires(*size, (x,)),
        depth <= MAX_SHAPE_DEPTH,
    ensures
        spec_shape_fold(asts@, *size, args@, i as int, depth as int, acc, r),
    decreases 65 - depth, 0int, args@.len() - i,
{
    if i >= args.len() {
        return Ok(acc);
    }
    let r1 = shape(&args[i], asts, size, depth + 1);
    proof {
        assert(spec_shape_step(r1));
    }
    match r1 {
        Err(x) => Err(x),
        Ok(s) => shape_fold(args, i + 1, asts, size, depth, larger(acc, s)),
    }
}

} // verus!
