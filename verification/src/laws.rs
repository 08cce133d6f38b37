//! The laws of the reorganizer, proved from the specifications in
//! [`crate::fields`] and [`crate::structs`]: the plan conserves the declared
//! byte size, a zero-width marker is transparent wherever it does not split a
//! group, a rewritten compound assignment calls the setter exactly once with
//! the operand built from one getter read and one right-hand side, and a
//! literal initializer applies every supplied bit-field value through a
//! setter, never inside the literal.
use vstd::prelude::*;

verus! {

use crate::ast::ExprV;
use crate::ast::StmtV;
use crate::ast::WithStmtsV;
use crate::fields::{
    ClassState, FieldDescV, FieldTypeV, class_run, class_step, fields_marker_aligned, fields_wf,
    flush, group_node, init_state, lemma_class_run_snoc, lemma_run_sum, natural_fill, plan_of,
    plan_sum, lemma_plan_sum_push, sum_inv,
};
use crate::structs::{
    lit_bf_inits, lit_regular_vals, literal_block_stmts, non_assign_form, rewrite_operand,
    rewrite_spec, setter_stmts, spec_resolve, wrap_inner, zerofill_vals,
};

/// Size conservation: the byte sizes of the plan's nodes add up to the
/// declared total, except when packing makes the natural fill exceed it, in
/// which case no trailing padding is fabricated and the sum is the natural
/// fill.  A computed-padding member counts as zero here: its size is symbolic
/// and resolved only by the target's type system.
pub proof fn lemma_size_conservation(s: Seq<FieldDescV>, total_bytes: u64, is_packed: bool)
    requires
        fields_wf(s),
        fields_marker_aligned(s),
    ensures
        natural_fill(s, is_packed) <= total_bytes ==> plan_sum(
            plan_of(s, total_bytes, is_packed),
        ) == total_bytes,
        natural_fill(s, is_packed) > total_bytes ==> plan_sum(
            plan_of(s, total_bytes, is_packed),
        ) == natural_fill(s, is_packed),
{
    lemma_run_sum(s, is_packed, s.len() as int);
    crate::fields::lemma_run_basic(s, is_packed, s.len() as int);
    assert(s.take(s.len() as int) =~= s);
    let st = class_run(init_state(), s, is_packed);
    assert(sum_inv(st));
    match st.open {
        None => {},
        Some(g) => {
            lemma_plan_sum_push(st.plan, group_node(g));
        },
    }
    let stf = flush(st);
    assert(plan_sum(stf.plan) == st.next_byte_pos as int);
    if total_bytes > stf.next_byte_pos {
        lemma_plan_sum_push(
            stf.plan,
            FieldTypeV::Padding { bytes: (total_bytes - stf.next_byte_pos) as u64 },
        );
    }
}

/// Running the classifier over two lists in sequence is running it over their
/// concatenation.
pub proof fn lemma_class_run_concat(
    st: ClassState,
    a: Seq<FieldDescV>,
    b: Seq<FieldDescV>,
    is_packed: bool,
)
    ensures
        class_run(st, a + b, is_packed) == class_run(class_run(st, a, is_packed), b, is_packed),
    decreases a.len(),
{
    if a.len() == 0 {
        assert(a + b =~= b);
    } else {
        assert((a + b)[0] == a[0]);
        assert((a + b).subrange(1, (a + b).len() as int) =~= a.subrange(1, a.len() as int) + b);
        lemma_class_run_concat(
            class_step(st, a[0], is_packed),
            a.subrange(1, a.len() as int),
            b,
            is_packed,
        );
    }
}

/// Zero-width transparency: inserting a zero-width marker never changes the
/// plan, wherever no group is open at the insertion point or the next event —
/// an ordinary field, another marker, a byte gap, or the end of the list —
/// would close the open group anyway.  (Inserting one inside a run of
/// contiguous bit-fields splits the group, and the plan shows the split.)
pub proof fn lemma_zero_width_transparency(
    s: Seq<FieldDescV>,
    i: int,
    marker: FieldDescV,
    total_bytes: u64,
    is_packed: bool,
)
    requires
        0 <= i <= s.len(),
        marker.bitfield_width == Some(0u64),
        ({
            let st = class_run(init_state(), s.take(i), is_packed);
            ||| st.open is None
            ||| i == s.len()
            ||| s[i].bitfield_width is None
            ||| s[i].bitfield_width == Some(0u64)
            ||| s[i].platform_bit_offset as int / 8 > st.next_byte_pos
        }),
    ensures
        plan_of(s.take(i) + seq![marker] + s.skip(i), total_bytes, is_packed) == plan_of(
            s,
            total_bytes,
            is_packed,
        ),
{
    let st = class_run(init_state(), s.take(i), is_packed);
    assert(s.take(i) + seq![marker] + s.skip(i) =~= (s.take(i) + seq![marker]) + s.skip(i));
    lemma_class_run_concat(init_state(), s.take(i) + seq![marker], s.skip(i), is_packed);
    assert(s.take(i) + seq![marker] =~= s.take(i).push(marker));
    lemma_class_run_snoc(init_state(), s.take(i), marker, is_packed);
    assert(class_step(st, marker, is_packed) == flush(st));
    assert(s.take(i) + s.skip(i) =~= s);
    lemma_class_run_concat(init_state(), s.take(i), s.skip(i), is_packed);
    let stf = flush(st);
    if st.open is None {
        assert(stf == st);
    } else if i == s.len() {
        assert(s.skip(i) =~= Seq::<FieldDescV>::empty());
        assert(class_run(stf, s.skip(i), is_packed) == stf);
        assert(class_run(st, s.skip(i), is_packed) == st);
        assert(flush(stf) == flush(st));
    } else {
        // The next field closes the group itself, so closing it early leaves
        // every later step unchanged.
        assert(s.skip(i)[0] == s[i]);
        assert(class_step(stf, s[i], is_packed) == class_step(st, s[i], is_packed)) by {
            assert(flush(stf) == flush(st));
        }
        assert(s.skip(i).subrange(1, s.skip(i).len() as int) =~= s.skip(i + 1));
        assert(class_run(stf, s.skip(i), is_packed) == class_run(
            class_step(stf, s[i], is_packed),
            s.skip(i + 1),
            is_packed,
        ));
        assert(class_run(st, s.skip(i), is_packed) == class_run(
            class_step(st, s[i], is_packed),
            s.skip(i + 1),
            is_packed,
        ));
    }
}

/// Assignment value-equivalence: rewriting `lhs.f <op>= rhs` for a compound
/// operator always succeeds once the field name resolves, the produced value
/// is the field read back through its getter — which, after the one setter
/// call, is the value of `get_f() <op> rhs` as truncated by the field's width
/// — and the emitted statements contain exactly one setter call, whose
/// operand holds one getter read and the right-hand side exactly once,
/// whether or not the right-hand side contains a nested block.
pub proof fn lemma_assignment_value_equivalence(
    names: Seq<(u64, Seq<char>)>,
    op: crate::ast::BinOp,
    lhs: ExprV,
    rhs: ExprV,
    field_id: u64,
    tmp: Seq<char>,
    fname: Seq<char>,
)
    requires
        spec_resolve(names, field_id) == Some(fname),
        non_assign_form(op) is Some,
    ensures
        ({
            let getter = ExprV::MethodCall {
                receiver: Box::new(lhs),
                method: "get_"@ + fname,
                args: Seq::empty(),
            };
            let operand = rewrite_operand(op, getter, rhs);
            let setter = "set_"@ + fname;
            let r = rewrite_spec(names, op, lhs, rhs, field_id, tmp);
            &&& operand == ExprV::Binary {
                op: non_assign_form(op)->0,
                left: Box::new(getter),
                right: Box::new(rhs),
            }
            &&& r is Ok
            &&& r->Ok_0.val == getter
            &&& !crate::ast::spec_contains_block(operand) ==> r->Ok_0.stmts == seq![
                StmtV::Expr(
                    ExprV::MethodCall {
                        receiver: Box::new(lhs),
                        method: setter,
                        args: seq![operand],
                    },
                ),
            ]
            &&& crate::ast::spec_contains_block(operand) ==> r->Ok_0.stmts == seq![
                StmtV::Local { name: tmp, init: operand },
                StmtV::Semi(
                    ExprV::MethodCall {
                        receiver: Box::new(lhs),
                        method: setter,
                        args: seq![ExprV::Ident(tmp)],
                    },
                ),
            ]
        }),
{
    assert(op != crate::ast::BinOp::Assign);
}

/// Literal deferral: in a literal initializer's block, the base literal holds
/// only the zero-filled group and padding arrays and the ordinary fields'
/// values, and every supplied bit-field value is applied by a setter call
/// after construction.  This lemma exhibits the setter statement for one
/// supplied bit-field target.
pub proof fn lemma_literal_deferral(
    record_name: Seq<char>,
    plan: Seq<FieldTypeV>,
    targets: Seq<FieldDescV>,
    ev: Seq<WithStmtsV>,
    dv: Seq<WithStmtsV>,
    pn: Seq<Seq<char>>,
    is_packed: bool,
    t: int,
)
    requires
        0 <= t < targets.len(),
        targets[t].bitfield_width is Some,
        targets[t].bitfield_width->0 > 0,
        t < ev.len(),
    ensures
        ({
            let stmts = literal_block_stmts(record_name, plan, targets, ev, dv, pn, is_packed);
            let v = wrap_inner(ev[t].val, is_packed && targets[t].is_aligned_struct);
            &&& stmts[0] == StmtV::Local {
                name: "init"@,
                init: ExprV::StructLit {
                    name: record_name,
                    fields: zerofill_vals(plan, pn) + lit_regular_vals(
                        targets,
                        ev,
                        dv,
                        is_packed,
                    ),
                },
            }
            &&& exists|b: int|
                1 <= b < stmts.len() - 1 && stmts[b] == StmtV::Expr(
                    ExprV::MethodCall {
                        receiver: Box::new(ExprV::Ident("init"@)),
                        method: "set_"@ + targets[t].name,
                        args: seq![v],
                    },
                )
            &&& forall|q: int|
                0 <= q < lit_regular_vals(targets, ev, dv, is_packed).len()
                    ==> entry_from_ordinary(
                    targets,
                    ev,
                    dv,
                    is_packed,
                    #[trigger] lit_regular_vals(targets, ev, dv, is_packed)[q],
                )
        }),
{
    let stmts = literal_block_stmts(record_name, plan, targets, ev, dv, pn, is_packed);
    let inits = lit_bf_inits(targets, ev, is_packed);
    let v = wrap_inner(ev[t].val, is_packed && targets[t].is_aligned_struct);
    lemma_bf_init_present(targets, ev, is_packed, t);
    let b0 = choose|b0: int|
        0 <= b0 < inits.len() && inits[b0] == (targets[t].name, v);
    assert(stmts[1 + b0] == setter_stmts(inits)[b0]);
    assert(stmts.len() == 2 + inits.len());
    lemma_regular_vals_ordinary(targets, ev, dv, is_packed);
}

/// Whether a literal field entry is an ordinary (non-bit-field) target's
/// entry: its supplied expression or implicit default, unwrapped where the
/// field uses the inner representation.
pub open spec fn entry_from_ordinary(
    targets: Seq<FieldDescV>,
    ev: Seq<WithStmtsV>,
    dv: Seq<WithStmtsV>,
    is_packed: bool,
    entry: crate::ast::FieldValV,
) -> bool {
    exists|u: int|
        0 <= u < targets.len() && targets[u].bitfield_width is None && entry
            == (crate::ast::FieldValV {
            name: targets[u].name,
            expr: wrap_inner(
                if u < ev.len() {
                    ev[u].val
                } else {
                    dv[targets[u].ctype as int].val
                },
                is_packed && targets[u].is_aligned_struct,
            ),
        })
}

/// A supplied bit-field target contributes its entry to the deferred setter
/// list.
proof fn lemma_bf_init_present(
    targets: Seq<FieldDescV>,
    ev: Seq<WithStmtsV>,
    is_packed: bool,
    t: int,
)
    requires
        0 <= t < targets.len(),
        targets[t].bitfield_width is Some,
        targets[t].bitfield_width->0 > 0,
        t < ev.len(),
    ensures
        exists|b: int|
            0 <= b < lit_bf_inits(targets, ev, is_packed).len() && lit_bf_inits(
                targets,
                ev,
                is_packed,
            )[b] == (
                targets[t].name,
                wrap_inner(ev[t].val, is_packed && targets[t].is_aligned_struct),
            ),
    decreases targets.len(),
{
    let inits = lit_bf_inits(targets, ev, is_packed);
    if t == targets.len() - 1 {
        assert(inits[inits.len() - 1] == (
            targets[t].name,
            wrap_inner(ev[t].val, is_packed && targets[t].is_aligned_struct),
        ));
    } else {
        let front = targets.subrange(0, targets.len() - 1);
        assert(front[t] == targets[t]);
        lemma_bf_init_present(front, ev, is_packed, t);
        let sub = lit_bf_inits(front, ev, is_packed);
        let b0 = choose|b0: int|
            0 <= b0 < sub.len() && sub[b0] == (
                front[t].name,
                wrap_inner(ev[t].val, is_packed && front[t].is_aligned_struct),
            );
        assert(inits[b0] == sub[b0]) by {
            if targets[targets.len() - 1].bitfield_width is Some && targets[targets.len()
                - 1].bitfield_width->0 > 0 && targets.len() - 1 < ev.len() {
                assert(inits == sub.push(
                    (
                        targets[targets.len() - 1].name,
                        wrap_inner(
                            ev[targets.len() - 1].val,
                            is_packed && targets[targets.len() - 1].is_aligned_struct,
                        ),
                    ),
                ));
            } else {
                assert(inits == sub);
            }
        }
    }
}

/// Every entry of the literal's ordinary-field section comes from an ordinary
/// target; no bit-field value stands in the literal itself.
proof fn lemma_regular_vals_ordinary(
    targets: Seq<FieldDescV>,
    ev: Seq<WithStmtsV>,
    dv: Seq<WithStmtsV>,
    is_packed: bool,
)
    ensures
        forall|q: int|
            0 <= q < lit_regular_vals(targets, ev, dv, is_packed).len() ==> entry_from_ordinary(
                targets,
                ev,
                dv,
                is_packed,
                #[trigger] lit_regular_vals(targets, ev, dv, is_packed)[q],
            ),
    decreases targets.len(),
{
    if targets.len() > 0 {
        let front = targets.subrange(0, targets.len() - 1);
        lemma_regular_vals_ordinary(front, ev, dv, is_packed);
        let whole = lit_regular_vals(targets, ev, dv, is_packed);
        let sub = lit_regular_vals(front, ev, dv, is_packed);
        assert forall|q: int| 0 <= q < whole.len() implies entry_from_ordinary(
            targets,
            ev,
            dv,
            is_packed,
            #[trigger] whole[q],
        ) by {
            if q < sub.len() {
                assert(whole[q] == sub[q]);
                assert(entry_from_ordinary(front, ev, dv, is_packed, sub[q]));
                let u = choose|u: int|
                    0 <= u < front.len() && front[u].bitfield_width is None && sub[q]
                        == (crate::ast::FieldValV {
                        name: front[u].name,
                        expr: wrap_inner(
                            if u < ev.len() {
                                ev[u].val
                            } else {
                                dv[front[u].ctype as int].val
                            },
                            is_packed && front[u].is_aligned_struct,
                        ),
                    });
                assert(targets[u] == front[u]);
            } else {
                let u = targets.len() - 1;
                assert(targets[u].bitfield_width is None);
                assert(whole[q] == (crate::ast::FieldValV {
                    name: targets[u].name,
                    expr: wrap_inner(
                        if u < ev.len() {
                            ev[u].val
                        } else {
                            dv[targets[u].ctype as int].val
                        },
                        is_packed && targets[u].is_aligned_struct,
                    ),
                }));
            }
        }
    }
}

/// The first byte an accessor entry touches, in absolute byte positions.
pub open spec fn abs_lo(start_bit: u64, a: crate::fields::AttrV) -> int {
    (start_bit + a.bit_start) as int / 8
}

/// The last byte an accessor entry touches, in absolute byte positions.
pub open spec fn abs_hi(start_bit: u64, a: crate::fields::AttrV) -> int {
    (start_bit + a.bit_end) as int / 8
}

/// Whether some accessor entry of a group claims the byte.
pub open spec fn byte_covered(start_bit: u64, attrs: Seq<crate::fields::AttrV>, b: int) -> bool {
    exists|k: int|
        0 <= k < attrs.len() && abs_lo(start_bit, #[trigger] attrs[k]) <= b <= abs_hi(
            start_bit,
            attrs[k],
        )
}

/// The accessor entries of a group form a gapless chain over its bytes: the
/// first entry starts at the group's first byte, each entry starts at or
/// before the byte after its predecessor ends, the touched bytes never move
/// backwards, and the last entry ends at the group's last byte.
pub open spec fn chain_ok(start_bit: u64, last: int, attrs: Seq<crate::fields::AttrV>) -> bool {
    &&& attrs.len() >= 1
    &&& abs_lo(start_bit, attrs[0]) == start_bit as int / 8
    &&& abs_hi(start_bit, attrs[attrs.len() - 1]) == last
    &&& forall|k: int|
        0 <= k < attrs.len() ==> start_bit as int / 8 <= abs_lo(start_bit, #[trigger] attrs[k])
            <= abs_hi(start_bit, attrs[k]) <= last
    &&& forall|k: int|
        0 <= k < attrs.len() - 1 ==> abs_lo(start_bit, #[trigger] attrs[k + 1]) <= abs_hi(
            start_bit,
            attrs[k],
        ) + 1 && abs_hi(start_bit, attrs[k + 1]) >= abs_hi(start_bit, attrs[k])
}

proof fn lemma_chain_adjacent(start_bit: u64, last: int, attrs: Seq<crate::fields::AttrV>, k: int)
    requires
        chain_ok(start_bit, last, attrs),
        0 <= k < attrs.len() - 1,
    ensures
        abs_lo(start_bit, attrs[k + 1]) <= abs_hi(start_bit, attrs[k]) + 1,
        abs_hi(start_bit, attrs[k + 1]) >= abs_hi(start_bit, attrs[k]),
{
}

/// A gapless chain leaves no byte of the group unclaimed.
proof fn lemma_chain_covers_upto(
    start_bit: u64,
    last: int,
    attrs: Seq<crate::fields::AttrV>,
    k: int,
)
    requires
        chain_ok(start_bit, last, attrs),
        0 <= k < attrs.len(),
    ensures
        forall|b: int|
            start_bit as int / 8 <= b <= abs_hi(start_bit, attrs[k]) ==> #[trigger] byte_covered(
                start_bit,
                attrs,
                b,
            ),
    decreases k,
{
    if k == 0 {
        assert forall|b: int|
            start_bit as int / 8 <= b <= abs_hi(start_bit, attrs[0]) implies byte_covered(
            start_bit,
            attrs,
            b,
        ) by {
            assert(abs_lo(start_bit, attrs[0]) <= b <= abs_hi(start_bit, attrs[0]));
        }
    } else {
        lemma_chain_covers_upto(start_bit, last, attrs, k - 1);
        lemma_chain_adjacent(start_bit, last, attrs, k - 1);
        assert forall|b: int|
            start_bit as int / 8 <= b <= abs_hi(start_bit, attrs[k]) implies byte_covered(
            start_bit,
            attrs,
            b,
        ) by {
            if b <= abs_hi(start_bit, attrs[k - 1]) {
            } else {
                assert(abs_lo(start_bit, attrs[k]) <= b <= abs_hi(start_bit, attrs[k]));
            }
        }
    }
}

/// The group facts a plan node must satisfy: at least one byte, and a gapless
/// accessor chain over exactly its bytes.
pub open spec fn node_group_ok(n: FieldTypeV) -> bool {
    match n {
        FieldTypeV::BitfieldGroup { start_bit, bytes, attrs, .. } => {
            &&& bytes >= 1
            &&& chain_ok(start_bit, start_bit as int / 8 + bytes - 1, attrs)
        },
        _ => true,
    }
}

/// The first byte a group node occupies.
pub open spec fn node_lo(n: FieldTypeV) -> int {
    match n {
        FieldTypeV::BitfieldGroup { start_bit, .. } => start_bit as int / 8,
        _ => 0,
    }
}

/// The last byte a group node occupies.
pub open spec fn node_hi(n: FieldTypeV) -> int {
    match n {
        FieldTypeV::BitfieldGroup { start_bit, bytes, .. } => start_bit as int / 8 + bytes - 1,
        _ => 0,
    }
}

/// The group bookkeeping the classifier maintains: every emitted group node
/// carries a gapless chain, group nodes occupy strictly increasing byte
/// ranges below the next byte position, and the open group sits past them
/// all with a gapless chain of its own.
pub open spec fn groups_inv(st: ClassState) -> bool {
    &&& forall|i: int| 0 <= i < st.plan.len() ==> node_group_ok(#[trigger] st.plan[i])
    &&& forall|i: int, j: int|
        0 <= i < j < st.plan.len() && (#[trigger] st.plan[i]) is BitfieldGroup
            && (#[trigger] st.plan[j]) is BitfieldGroup ==> node_hi(st.plan[i]) < node_lo(st.plan[j])
    &&& forall|i: int|
        0 <= i < st.plan.len() && (#[trigger] st.plan[i]) is BitfieldGroup ==> node_hi(
            st.plan[i],
        ) < st.next_byte_pos
    &&& match st.open {
        Some(g) => {
            &&& chain_ok(g.start_bit, g.last_byte as int, g.attrs)
            &&& forall|i: int|
                0 <= i < st.plan.len() && (#[trigger] st.plan[i]) is BitfieldGroup ==> node_hi(
                    st.plan[i],
                ) < g.start_bit as int / 8
        },
        None => true,
    }
}

proof fn lemma_groups_inv_push(st: ClassState, x: FieldTypeV, nbp: u64, open_g: Option<crate::fields::GroupAcc>)
    requires
        groups_inv(st),
        node_group_ok(x),
        x is BitfieldGroup ==> {
            &&& (forall|i: int|
                0 <= i < st.plan.len() && (#[trigger] st.plan[i]) is BitfieldGroup ==> node_hi(
                    st.plan[i],
                ) < node_lo(x))
            &&& node_hi(x) < nbp
        },
        !(x is BitfieldGroup) ==> nbp >= st.next_byte_pos,
        forall|i: int|
            0 <= i < st.plan.len() && (#[trigger] st.plan[i]) is BitfieldGroup ==> node_hi(
                st.plan[i],
            ) < nbp,
        match open_g {
            Some(g) => {
                &&& chain_ok(g.start_bit, g.last_byte as int, g.attrs)
                &&& (forall|i: int|
                    0 <= i < st.plan.len() && (#[trigger] st.plan[i]) is BitfieldGroup
                        ==> node_hi(st.plan[i]) < g.start_bit as int / 8)
                &&& (x is BitfieldGroup ==> node_hi(x) < g.start_bit as int / 8)
            },
            None => true,
        },
    ensures
        groups_inv(ClassState { plan: st.plan.push(x), open: open_g, next_byte_pos: nbp }),
{
    let plan1 = st.plan.push(x);
    assert forall|i: int| 0 <= i < plan1.len() implies node_group_ok(#[trigger] plan1[i]) by {
        if i < st.plan.len() {
            assert(plan1[i] == st.plan[i]);
        } else {
            assert(plan1[i] == x);
        }
    }
    assert forall|i: int, j: int|
        0 <= i < j < plan1.len() && (#[trigger] plan1[i]) is BitfieldGroup
        && (#[trigger] plan1[j]) is BitfieldGroup implies node_hi(plan1[i]) < node_lo(plan1[j]) by {
        if j < st.plan.len() {
            assert(plan1[i] == st.plan[i]);
            assert(plan1[j] == st.plan[j]);
        } else {
            assert(plan1[j] == x);
            assert(plan1[i] == st.plan[i]);
        }
    }
    assert forall|i: int|
        0 <= i < plan1.len() && (#[trigger] plan1[i]) is BitfieldGroup implies node_hi(plan1[i])
        < nbp by {
        if i < st.plan.len() {
            assert(plan1[i] == st.plan[i]);
        } else {
            assert(plan1[i] == x);
        }
    }
    match open_g {
        Some(g) => {
            assert forall|i: int|
                0 <= i < plan1.len() && (#[trigger] plan1[i]) is BitfieldGroup implies node_hi(
                plan1[i],
            ) < g.start_bit as int / 8 by {
                if i < st.plan.len() {
                    assert(plan1[i] == st.plan[i]);
                } else {
                    assert(plan1[i] == x);
                }
            }
        },
        None => {},
    }
}

/// The classifier keeps [`groups_inv`] over every well-formed, marker-aligned
/// prefix.
pub proof fn lemma_run_groups(s: Seq<FieldDescV>, is_packed: bool, i: int)
    requires
        fields_wf(s),
        fields_marker_aligned(s),
        0 <= i <= s.len(),
    ensures
        groups_inv(class_run(init_state(), s.take(i), is_packed)),
    decreases i,
{
    if i == 0 {
        assert(s.take(0) =~= Seq::<FieldDescV>::empty());
    } else {
        lemma_run_groups(s, is_packed, i - 1);
        crate::fields::lemma_run_basic(s, is_packed, i - 1);
        let prev = s.take(i - 1);
        let f = s[i - 1];
        let st = class_run(init_state(), prev, is_packed);
        assert(s.take(i) =~= prev.push(f));
        lemma_class_run_snoc(init_state(), prev, f, is_packed);
        if prev.len() > 0 {
            assert(prev[prev.len() - 1] == s[i - 2]);
            crate::fields::lemma_wf_adjacent(s, i - 2);
        }
        let off = f.platform_bit_offset as int;
        let nbp = st.next_byte_pos as int;
        assert(crate::fields::field_wf(f));
        match f.bitfield_width {
            Some(w) => {
                if w == 0 {
                    match st.open {
                        None => {},
                        Some(g) => {
                            lemma_flush_groups(st);
                        },
                    }
                } else {
                    let last_new = (off + w - 1) / 8;
                    vstd::arithmetic::div_mod::lemma_div_is_ordered(off, off + w - 1, 8);
                    vstd::arithmetic::div_mod::lemma_div_nonincreasing(off + w - 1, 8);
                    let newattr = crate::fields::AttrV {
                        name: f.name,
                        ty: f.ty,
                        bit_start: 0,
                        bit_end: (w - 1) as u64,
                    };
                    if off / 8 > nbp {
                        match st.open {
                            None => {},
                            Some(g) => {
                                lemma_flush_groups(st);
                            },
                        }
                        let stf = flush(st);
                        let newg = crate::fields::GroupAcc {
                            start_bit: f.platform_bit_offset,
                            name: f.name,
                            last_byte: last_new as u64,
                            attrs: seq![newattr],
                        };
                        assert(chain_ok(newg.start_bit, newg.last_byte as int, newg.attrs)) by {
                            assert(newg.attrs[0] == newattr);
                            assert(abs_lo(newg.start_bit, newattr) == off / 8);
                            assert(abs_hi(newg.start_bit, newattr) == last_new);
                        }
                        lemma_groups_inv_push(
                            stf,
                            FieldTypeV::Padding { bytes: (off / 8 - stf.next_byte_pos) as u64 },
                            (last_new + 1) as u64,
                            Some(newg),
                        );
                    } else {
                        match st.open {
                            None => {
                                crate::fields::lemma_gapless_at_boundary(s, i, st, is_packed);
                                let newg = crate::fields::GroupAcc {
                                    start_bit: f.platform_bit_offset,
                                    name: f.name,
                                    last_byte: last_new as u64,
                                    attrs: seq![newattr],
                                };
                                let st1 = ClassState {
                                    plan: st.plan,
                                    open: Some(newg),
                                    next_byte_pos: (last_new + 1) as u64,
                                };
                                assert(chain_ok(
                                    newg.start_bit,
                                    newg.last_byte as int,
                                    newg.attrs,
                                )) by {
                                    assert(newg.attrs[0] == newattr);
                                    assert(abs_lo(newg.start_bit, newattr) == off / 8);
                                    assert(abs_hi(newg.start_bit, newattr) == last_new);
                                }
                                assert(groups_inv(st1)) by {
                                    assert(forall|q: int|
                                        0 <= q < st1.plan.len() ==> node_group_ok(
                                            #[trigger] st1.plan[q],
                                        ));
                                    assert forall|q: int|
                                        0 <= q < st1.plan.len()
                                        && (#[trigger] st1.plan[q]) is BitfieldGroup implies node_hi(st1.plan[q])
                                        < st1.next_byte_pos && node_hi(st1.plan[q])
                                        < newg.start_bit as int / 8 by {
                                        assert(node_hi(st.plan[q]) < st.next_byte_pos);
                                    }
                                }
                            },
                            Some(g) => {
                                // Extending the open group: the new entry
                                // continues the chain at or before the byte
                                // after its last one.
                                let fp = prev.last();
                                let e = fp.platform_bit_offset + fp.bitfield_width->0;
                                assert(off >= e);
                                assert(last_new >= g.last_byte as int) by {
                                    vstd::arithmetic::div_mod::lemma_div_is_ordered(
                                        e - 1,
                                        off + w - 1,
                                        8,
                                    );
                                }
                                vstd::arithmetic::div_mod::lemma_div_is_ordered(
                                    g.start_bit as int,
                                    off,
                                    8,
                                );
                                let ext = crate::fields::AttrV {
                                    name: f.name,
                                    ty: f.ty,
                                    bit_start: (off - g.start_bit) as u64,
                                    bit_end: (off - g.start_bit + w - 1) as u64,
                                };
                                let na = g.attrs.push(ext);
                                let last2 = if last_new > g.last_byte as int {
                                    last_new
                                } else {
                                    g.last_byte as int
                                };
                                assert(last2 == last_new);
                                assert(abs_lo(g.start_bit, ext) == off / 8);
                                assert(abs_hi(g.start_bit, ext) == last_new);
                                assert(chain_ok(g.start_bit, last2, na)) by {
                                    let n0 = g.attrs.len() as int;
                                    assert(na[0] == g.attrs[0]);
                                    assert(na[na.len() - 1] == ext);
                                    assert(abs_hi(g.start_bit, g.attrs[n0 - 1])
                                        == g.last_byte as int);
                                    assert forall|k: int| 0 <= k < na.len() implies g.start_bit
                                        as int / 8 <= abs_lo(g.start_bit, #[trigger] na[k])
                                        <= abs_hi(g.start_bit, na[k]) <= last2 by {
                                        if k < n0 {
                                            assert(na[k] == g.attrs[k]);
                                        } else {
                                            assert(na[k] == ext);
                                        }
                                    }
                                    assert forall|k: int| 0 <= k < na.len() - 1 implies abs_lo(
                                        g.start_bit,
                                        #[trigger] na[k + 1],
                                    ) <= abs_hi(g.start_bit, na[k]) + 1 && abs_hi(
                                        g.start_bit,
                                        na[k + 1],
                                    ) >= abs_hi(g.start_bit, na[k]) by {
                                        if k + 1 < n0 {
                                            assert(na[k] == g.attrs[k]);
                                            assert(na[k + 1] == g.attrs[k + 1]);
                                            lemma_chain_adjacent(
                                                g.start_bit,
                                                g.last_byte as int,
                                                g.attrs,
                                                k,
                                            );
                                        } else {
                                            assert(na[k] == g.attrs[n0 - 1]);
                                            assert(na[k + 1] == ext);
                                        }
                                    }
                                }
                                let st1 = ClassState {
                                    plan: st.plan,
                                    open: Some(
                                        crate::fields::GroupAcc {
                                            start_bit: g.start_bit,
                                            name: g.name + "_"@ + f.name,
                                            last_byte: last2 as u64,
                                            attrs: na,
                                        },
                                    ),
                                    next_byte_pos: (last_new + 1) as u64,
                                };
                                assert(groups_inv(st1)) by {
                                    assert forall|q: int|
                                        0 <= q < st1.plan.len()
                                        && (#[trigger] st1.plan[q]) is BitfieldGroup implies node_hi(st1.plan[q])
                                        < st1.next_byte_pos && node_hi(st1.plan[q]) < g.start_bit
                                        as int / 8 by {
                                        assert(node_hi(st.plan[q]) < st.next_byte_pos);
                                        assert(node_hi(st.plan[q]) < g.start_bit as int / 8);
                                    }
                                }
                            },
                        }
                    }
                }
            },
            None => {
                match st.open {
                    None => {},
                    Some(g) => {
                        lemma_flush_groups(st);
                    },
                }
                let stf = flush(st);
                let tw = f.platform_type_bitwidth as int;
                let nbp2 = ((off + tw) / 8) as u64;
                vstd::arithmetic::div_mod::lemma_div_is_ordered(off, off + tw, 8);
                vstd::arithmetic::div_mod::lemma_div_nonincreasing(off + tw, 8);
                if off / 8 > nbp {
                } else {
                    crate::fields::lemma_gapless_at_boundary(s, i, st, is_packed);
                }
                let use_inner = is_packed && f.is_aligned_struct;
                let node = FieldTypeV::Regular {
                    name: f.name,
                    ty: if use_inner {
                        f.inner_type_name
                    } else {
                        f.ty
                    },
                    ctype: f.ctype,
                    bytes: (tw / 8) as u64,
                    use_inner_type: use_inner,
                };
                let st1 = if off / 8 > nbp {
                    let pad = FieldTypeV::Padding { bytes: (off / 8 - nbp) as u64 };
                    lemma_groups_inv_push(stf, pad, nbp2, None);
                    ClassState { plan: stf.plan.push(pad), open: None, next_byte_pos: nbp2 }
                } else {
                    ClassState { plan: stf.plan, open: None, next_byte_pos: nbp2 }
                };
                assert(groups_inv(st1)) by {
                    assert forall|q: int|
                        0 <= q < st1.plan.len() && (#[trigger] st1.plan[q]) is BitfieldGroup
                        implies node_hi(st1.plan[q]) < st1.next_byte_pos by {
                        if off / 8 > nbp {
                        } else {
                            assert(node_hi(stf.plan[q]) < stf.next_byte_pos);
                        }
                    }
                    assert(forall|q: int|
                        0 <= q < st1.plan.len() ==> node_group_ok(#[trigger] st1.plan[q]));
                }
                lemma_groups_inv_push(st1, node, nbp2, None);
                let st2 = ClassState {
                    plan: st1.plan.push(node),
                    open: None,
                    next_byte_pos: nbp2,
                };
                if use_inner {
                    lemma_groups_inv_push(
                        st2,
                        FieldTypeV::ComputedPadding { ident: f.padding_ident },
                        nbp2,
                        None,
                    );
                }
            },
        }
    }
}

/// Closing the open group preserves the group bookkeeping: the flushed node
/// sits past every earlier group and below the next byte position.
proof fn lemma_flush_groups(st: ClassState)
    requires
        groups_inv(st),
        st.open is Some,
        ({
            let g = st.open->0;
            &&& g.start_bit as int / 8 <= g.last_byte
            &&& g.last_byte + 1 == st.next_byte_pos
        }),
    ensures
        groups_inv(flush(st)),
{
    let g = st.open->0;
    let node = group_node(g);
    assert(node_group_ok(node)) by {
        assert((g.last_byte as int - g.start_bit as int / 8 + 1) as u64 as int == g.last_byte
            as int - g.start_bit as int / 8 + 1);
    }
    assert(node_lo(node) == g.start_bit as int / 8);
    assert(node_hi(node) == g.last_byte as int);
    lemma_groups_inv_push(st, node, st.next_byte_pos, None);
}

/// Bit coverage without duplication: the union of a group's accessor byte
/// ranges, mapped to absolute positions, covers exactly the group's occupied
/// bytes, every range stays inside them, and no byte — hence no bit — belongs
/// to two different groups of one plan.
pub proof fn lemma_bit_coverage(
    s: Seq<FieldDescV>,
    total_bytes: u64,
    is_packed: bool,
    gi: int,
    gj: int,
)
    requires
        fields_wf(s),
        fields_marker_aligned(s),
        ({
            let plan = plan_of(s, total_bytes, is_packed);
            &&& 0 <= gi < plan.len()
            &&& plan[gi] is BitfieldGroup
        }),
    ensures
        ({
            let plan = plan_of(s, total_bytes, is_packed);
            let n = plan[gi];
            &&& n->BitfieldGroup_bytes >= 1
            &&& forall|b: int|
                node_lo(n) <= b <= node_hi(n) ==> #[trigger] byte_covered(
                    n->BitfieldGroup_start_bit,
                    n->BitfieldGroup_attrs,
                    b,
                )
            &&& forall|k: int|
                0 <= k < n->BitfieldGroup_attrs.len() ==> node_lo(n) <= abs_lo(
                    n->BitfieldGroup_start_bit,
                    #[trigger] n->BitfieldGroup_attrs[k],
                ) <= abs_hi(n->BitfieldGroup_start_bit, n->BitfieldGroup_attrs[k]) <= node_hi(n)
            &&& (0 <= gj < plan.len() && gj != gi && plan[gj] is BitfieldGroup) ==> (node_hi(
                plan[gi],
            ) < node_lo(plan[gj]) || node_hi(plan[gj]) < node_lo(plan[gi]))
        }),
{
    lemma_run_groups(s, is_packed, s.len() as int);
    crate::fields::lemma_run_basic(s, is_packed, s.len() as int);
    assert(s.take(s.len() as int) =~= s);
    let st = class_run(init_state(), s, is_packed);
    match st.open {
        None => {},
        Some(g) => {
            lemma_flush_groups(st);
        },
    }
    let stf = flush(st);
    let plan = plan_of(s, total_bytes, is_packed);
    if total_bytes > stf.next_byte_pos {
        lemma_groups_inv_push(
            stf,
            FieldTypeV::Padding { bytes: (total_bytes - stf.next_byte_pos) as u64 },
            total_bytes,
            None,
        );
        assert(plan == stf.plan.push(
            FieldTypeV::Padding { bytes: (total_bytes - stf.next_byte_pos) as u64 },
        ));
    } else {
        assert(plan == stf.plan);
    }
    let n = plan[gi];
    assert(node_group_ok(n));
    let start_bit = n->BitfieldGroup_start_bit;
    let attrs = n->BitfieldGroup_attrs;
    let last = node_hi(n);
    assert(chain_ok(start_bit, last, attrs));
    lemma_chain_covers_upto(start_bit, last, attrs, attrs.len() - 1);
    assert(abs_hi(start_bit, attrs[attrs.len() - 1]) == last);
}

/// The group facts of a finished plan alone: every group node carries a
/// gapless chain, and group nodes occupy strictly increasing byte ranges.
pub open spec fn plan_groups_ok(plan: Seq<FieldTypeV>) -> bool {
    &&& forall|i: int| 0 <= i < plan.len() ==> node_group_ok(#[trigger] plan[i])
    &&& forall|i: int, j: int|
        0 <= i < j < plan.len() && (#[trigger] plan[i]) is BitfieldGroup
            && (#[trigger] plan[j]) is BitfieldGroup ==> node_hi(plan[i]) < node_lo(plan[j])
}

/// A finished plan satisfies [`plan_groups_ok`].
pub proof fn lemma_final_groups_ok(s: Seq<FieldDescV>, total_bytes: u64, is_packed: bool)
    requires
        fields_wf(s),
        fields_marker_aligned(s),
    ensures
        plan_groups_ok(plan_of(s, total_bytes, is_packed)),
{
    lemma_run_groups(s, is_packed, s.len() as int);
    crate::fields::lemma_run_basic(s, is_packed, s.len() as int);
    assert(s.take(s.len() as int) =~= s);
    let st = class_run(init_state(), s, is_packed);
    match st.open {
        None => {},
        Some(g) => {
            lemma_flush_groups(st);
        },
    }
    let stf = flush(st);
    if total_bytes > stf.next_byte_pos {
        lemma_groups_inv_push(
            stf,
            FieldTypeV::Padding { bytes: (total_bytes - stf.next_byte_pos) as u64 },
            total_bytes,
            None,
        );
    }
}

/// Two group nodes of one well-formed plan that both occupy a byte are the
/// same node.
proof fn lemma_unique_node_for_byte(plan: Seq<FieldTypeV>, i: int, j: int, b: int)
    requires
        plan_groups_ok(plan),
        0 <= i < plan.len(),
        0 <= j < plan.len(),
        plan[i] is BitfieldGroup,
        plan[j] is BitfieldGroup,
        node_lo(plan[i]) <= b <= node_hi(plan[i]),
        node_lo(plan[j]) <= b <= node_hi(plan[j]),
    ensures
        i == j,
{
}

/// Whether a group node carries the accessor entry of the given bit-field:
/// an entry whose absolute bit range is exactly the field's.
pub open spec fn has_attr_for(n: FieldTypeV, f: FieldDescV) -> bool {
    match n {
        FieldTypeV::BitfieldGroup { start_bit, attrs, .. } => exists|k: int|
            0 <= k < attrs.len() && (#[trigger] attrs[k]).bit_start + start_bit
                == f.platform_bit_offset && attrs[k].bit_end + start_bit == f.platform_bit_offset
                + f.bitfield_width->0 - 1,
        _ => false,
    }
}

/// A plan only ever grows: whatever the classifier has emitted stays in place.
proof fn lemma_plan_prefix(st: ClassState, rest: Seq<FieldDescV>, is_packed: bool)
    ensures
        class_run(st, rest, is_packed).plan.len() >= st.plan.len(),
        class_run(st, rest, is_packed).plan.take(st.plan.len() as int) == st.plan,
    decreases rest.len(),
{
    if rest.len() == 0 {
        assert(st.plan.take(st.plan.len() as int) =~= st.plan);
    } else {
        let st1 = class_step(st, rest[0], is_packed);
        lemma_plan_prefix(st1, rest.subrange(1, rest.len() as int), is_packed);
        assert(st1.plan.len() >= st.plan.len() && st1.plan.take(st.plan.len() as int)
            == st.plan) by {
            lemma_step_plan_prefix(st, rest[0], is_packed);
        }
        let fin = class_run(st1, rest.subrange(1, rest.len() as int), is_packed);
        assert(fin.plan.take(st.plan.len() as int) =~= fin.plan.take(st1.plan.len() as int).take(
            st.plan.len() as int,
        ));
        assert(st1.plan.take(st.plan.len() as int) == st.plan);
    }
}

/// One classifier step only pushes onto the plan.
proof fn lemma_step_plan_prefix(st: ClassState, f: FieldDescV, is_packed: bool)
    ensures
        class_step(st, f, is_packed).plan.len() >= st.plan.len(),
        class_step(st, f, is_packed).plan.take(st.plan.len() as int) == st.plan,
{
    let p0 = st.plan;
    assert(p0.take(p0.len() as int) =~= p0);
    assert forall|x: FieldTypeV| #[trigger] p0.push(x).take(p0.len() as int) == p0 by {
        assert(p0.push(x).take(p0.len() as int) =~= p0);
    }
    assert forall|x: FieldTypeV, y: FieldTypeV| #[trigger] p0.push(x).push(y).take(
        p0.len() as int,
    ) == p0 by {
        assert(p0.push(x).push(y).take(p0.len() as int) =~= p0);
    }
    assert forall|x: FieldTypeV, y: FieldTypeV, z: FieldTypeV| #[trigger] p0.push(x).push(y).push(
        z,
    ).take(p0.len() as int) == p0 by {
        assert(p0.push(x).push(y).push(z).take(p0.len() as int) =~= p0);
    }
}

/// Finishing the plan only pushes onto it.
proof fn lemma_finalize_prefix(st: ClassState, total_bytes: u64)
    ensures
        crate::fields::finalize_plan(st, total_bytes).len() >= st.plan.len(),
        crate::fields::finalize_plan(st, total_bytes).take(st.plan.len() as int) == st.plan,
{
    let p0 = st.plan;
    assert(p0.take(p0.len() as int) =~= p0);
    assert forall|x: FieldTypeV| #[trigger] p0.push(x).take(p0.len() as int) == p0 by {
        assert(p0.push(x).take(p0.len() as int) =~= p0);
    }
    assert forall|x: FieldTypeV, y: FieldTypeV| #[trigger] p0.push(x).push(y).take(
        p0.len() as int,
    ) == p0 by {
        assert(p0.push(x).push(y).take(p0.len() as int) =~= p0);
    }
}

/// The group the classifier holds open ends up as a plan node whose entries
/// extend the ones accumulated so far.
proof fn lemma_open_lands(
    st: ClassState,
    rest: Seq<FieldDescV>,
    total_bytes: u64,
    is_packed: bool,
)
    requires
        st.open is Some,
    ensures
        ({
            let g = st.open->0;
            let fp = crate::fields::finalize_plan(class_run(st, rest, is_packed), total_bytes);
            exists|idx: int|
                0 <= idx < fp.len() && ((#[trigger] fp[idx]) matches
                    FieldTypeV::BitfieldGroup { start_bit, attrs, .. }
                    && start_bit == g.start_bit && attrs.len() >= g.attrs.len() && attrs.take(
                    g.attrs.len() as int,
                ) == g.attrs)
        }),
    decreases rest.len(),
{
    let g = st.open->0;
    if rest.len() == 0 {
        let node = group_node(g);
        let idx = st.plan.len() as int;
        let stf = flush(st);
        let fp = crate::fields::finalize_plan(st, total_bytes);
        assert(stf.plan[idx] == node);
        assert(fp.take(stf.plan.len() as int) == stf.plan && fp.len() >= stf.plan.len()) by {
            let p1 = stf.plan;
            assert(p1.take(p1.len() as int) =~= p1);
            if total_bytes > stf.next_byte_pos {
                assert(p1.push(
                    FieldTypeV::Padding { bytes: (total_bytes - stf.next_byte_pos) as u64 },
                ).take(p1.len() as int) =~= p1);
            }
        }
        assert(fp[idx] == stf.plan[idx]);
        assert(g.attrs.take(g.attrs.len() as int) =~= g.attrs);
        assert(class_run(st, rest, is_packed) == st);
    } else {
        let f = rest[0];
        let st1 = class_step(st, f, is_packed);
        let rest1 = rest.subrange(1, rest.len() as int);
        let run1 = class_run(st1, rest1, is_packed);
        assert(class_run(st, rest, is_packed) == run1);
        let fp = crate::fields::finalize_plan(run1, total_bytes);
        let off = f.platform_bit_offset as int;
        let extends = f.bitfield_width is Some && f.bitfield_width->0 > 0 && !(off / 8
            > st.next_byte_pos);
        if extends {
            // The group stays open, with the accumulated entries as a prefix.
            let g1 = st1.open->0;
            assert(g1.start_bit == g.start_bit);
            assert(g1.attrs.take(g.attrs.len() as int) == g.attrs) by {
                assert(g1.attrs == g.attrs.push(g1.attrs[g1.attrs.len() - 1]));
                assert(g.attrs.push(g1.attrs[g1.attrs.len() - 1]).take(g.attrs.len() as int)
                    =~= g.attrs);
            }
            lemma_open_lands(st1, rest1, total_bytes, is_packed);
            let idx = choose|idx: int|
                0 <= idx < fp.len() && ((#[trigger] fp[idx]) matches
                    FieldTypeV::BitfieldGroup { start_bit, attrs, .. }
                    && start_bit == g1.start_bit && attrs.len() >= g1.attrs.len() && attrs.take(
                    g1.attrs.len() as int,
                ) == g1.attrs);
            let attrs = fp[idx]->BitfieldGroup_attrs;
            assert(attrs.take(g.attrs.len() as int) == g.attrs) by {
                assert(attrs.take(g.attrs.len() as int) =~= attrs.take(
                    g1.attrs.len() as int,
                ).take(g.attrs.len() as int));
            }
        } else {
            // The step closes the group: its node enters the plan and stays.
            let node = group_node(g);
            let idx = st.plan.len() as int;
            assert(st1.plan.len() > idx && st1.plan[idx] == node) by {
                let p0 = st.plan;
                let stf = flush(st);
                assert(stf.plan[idx] == node);
                match f.bitfield_width {
                    Some(w) => {
                        if w == 0 {
                        } else {
                            assert(stf.plan.push(
                                FieldTypeV::Padding {
                                    bytes: (off / 8 - stf.next_byte_pos) as u64,
                                },
                            )[idx] == node);
                        }
                    },
                    None => {},
                }
            }
            lemma_plan_prefix(st1, rest1, is_packed);
            assert(run1.plan[idx] == st1.plan[idx]) by {
                assert(run1.plan.take(st1.plan.len() as int)[idx] == run1.plan[idx]);
            }
            lemma_finalize_prefix(run1, total_bytes);
            assert(fp[idx] == run1.plan[idx]) by {
                assert(fp.take(run1.plan.len() as int)[idx] == fp[idx]);
            }
            assert(fp[idx] == node);
            assert(g.attrs.take(g.attrs.len() as int) =~= g.attrs);
        }
    }
}

/// Group contiguity, merging direction: a run of bit-fields unbroken by any
/// ordinary field, zero-width marker, or byte-level gap lands in one group
/// node, whose accessor entries include each field of the run.
#[verifier::rlimit(60)]
pub proof fn lemma_group_contiguity_merged(
    s: Seq<FieldDescV>,
    total_bytes: u64,
    is_packed: bool,
    a: int,
    b: int,
)
    requires
        fields_wf(s),
        fields_marker_aligned(s),
        0 <= a < b < s.len(),
        s[a].bitfield_width is Some && s[a].bitfield_width->0 > 0,
        // every later field of the run is a bit-field with no byte gap
        forall|k: int|
            a < k <= b ==> ((#[trigger] s[k].bitfield_width) is Some && s[k].bitfield_width->0
                > 0 && !(s[k].platform_bit_offset as int / 8 > class_run(
                init_state(),
                s.take(k),
                is_packed,
            ).next_byte_pos)),
    ensures
        exists|gidx: int|
            0 <= gidx < plan_of(s, total_bytes, is_packed).len() && has_attr_for(
                #[trigger] plan_of(s, total_bytes, is_packed)[gidx],
                s[a],
            ) && has_attr_for(plan_of(s, total_bytes, is_packed)[gidx], s[b]),
{
    let plan = plan_of(s, total_bytes, is_packed);
    lemma_attr_stays(s, is_packed, a, b + 1);
    lemma_after_bitfield(s, is_packed, b);
    let stb = class_run(init_state(), s.take(b + 1), is_packed);
    let g = stb.open->0;
    let k0 = choose|k: int|
        0 <= k < g.attrs.len() && (#[trigger] g.attrs[k]).bit_start + g.start_bit
            == s[a].platform_bit_offset && g.attrs[k].bit_end + g.start_bit
            == s[a].platform_bit_offset + s[a].bitfield_width->0 - 1;
    lemma_open_lands(stb, s.skip(b + 1), total_bytes, is_packed);
    assert(s.take(b + 1) + s.skip(b + 1) =~= s);
    lemma_class_run_concat(init_state(), s.take(b + 1), s.skip(b + 1), is_packed);
    let gidx = choose|gidx: int|
        0 <= gidx < plan.len() && ((#[trigger] plan[gidx]) matches
            FieldTypeV::BitfieldGroup { start_bit, attrs, .. } && start_bit == g.start_bit
            && attrs.len() >= g.attrs.len() && attrs.take(g.attrs.len() as int) == g.attrs);
    let attrs = plan[gidx]->BitfieldGroup_attrs;
    let n = g.attrs.len() as int;
    assert(attrs.take(n)[k0] == attrs[k0]);
    assert(attrs.take(n)[n - 1] == attrs[n - 1]);
    assert(has_attr_for(plan[gidx], s[a]));
    assert(has_attr_for(plan[gidx], s[b]));
}


/// Group contiguity, separating direction: two bit-fields with a zero-width
/// marker, an ordinary field, or a byte-level gap anywhere between them in
/// declaration order never share a group node.  `m` names the first such
/// separator after the first bit-field.
/// The node a separator flushes stays in the finished plan, right after what
/// was already emitted.
proof fn lemma_flushed_node_lands(
    s: Seq<FieldDescV>,
    total_bytes: u64,
    is_packed: bool,
    m: int,
)
    requires
        0 <= m < s.len(),
        class_run(init_state(), s.take(m), is_packed).open is Some,
        ({
            ||| s[m].bitfield_width == Some(0u64)
            ||| s[m].bitfield_width is None
            ||| (s[m].bitfield_width->0 > 0 && s[m].platform_bit_offset as int / 8 > class_run(
                init_state(),
                s.take(m),
                is_packed,
            ).next_byte_pos)
        }),
    ensures
        ({
            let stm = class_run(init_state(), s.take(m), is_packed);
            let plan = plan_of(s, total_bytes, is_packed);
            &&& plan.len() > stm.plan.len()
            &&& plan[stm.plan.len() as int] == group_node(stm.open->0)
        }),
{
    let stm = class_run(init_state(), s.take(m), is_packed);
    let g = stm.open->0;
    let plan = plan_of(s, total_bytes, is_packed);
    assert(s.take(m + 1) =~= s.take(m).push(s[m]));
    lemma_class_run_snoc(init_state(), s.take(m), s[m], is_packed);
    let stm1 = class_run(init_state(), s.take(m + 1), is_packed);
    let node = group_node(g);
    let idx0 = stm.plan.len() as int;
    assert(stm1.plan.len() > idx0 && stm1.plan[idx0] == node) by {
        let stf = flush(stm);
        assert(stf.plan[idx0] == node);
        let offm = s[m].platform_bit_offset as int;
        match s[m].bitfield_width {
            Some(w) => {
                if w != 0 {
                    assert(stf.plan.push(
                        FieldTypeV::Padding { bytes: (offm / 8 - stf.next_byte_pos) as u64 },
                    )[idx0] == node);
                }
            },
            None => {
                if offm / 8 > stf.next_byte_pos {
                    assert(stf.plan.push(
                        FieldTypeV::Padding { bytes: (offm / 8 - stf.next_byte_pos) as u64 },
                    )[idx0] == node);
                }
            },
        }
    }
    assert(s.take(m + 1) + s.skip(m + 1) =~= s);
    lemma_class_run_concat(init_state(), s.take(m + 1), s.skip(m + 1), is_packed);
    let run_all = class_run(init_state(), s, is_packed);
    lemma_plan_prefix(stm1, s.skip(m + 1), is_packed);
    assert(run_all.plan[idx0] == node) by {
        assert(run_all.plan.take(stm1.plan.len() as int)[idx0] == run_all.plan[idx0]);
    }
    lemma_finalize_prefix(run_all, total_bytes);
    assert(plan[idx0] == node) by {
        assert(plan.take(run_all.plan.len() as int)[idx0] == plan[idx0]);
    }
}

/// Past a separator, the next bit-field begins beyond the flushed group's
/// last byte.
proof fn lemma_second_field_past_group(
    s: Seq<FieldDescV>,
    is_packed: bool,
    m: int,
    b: int,
    e: int,
)
    requires
        fields_wf(s),
        fields_marker_aligned(s),
        0 < m <= b < s.len(),
        s[b].bitfield_width is Some && s[b].bitfield_width->0 > 0,
        e == s[m - 1].platform_bit_offset + s[m - 1].bitfield_width->0,
        s[m - 1].bitfield_width is Some && s[m - 1].bitfield_width->0 > 0,
        ({
            ||| s[m].bitfield_width == Some(0u64)
            ||| s[m].bitfield_width is None
            ||| (s[m].bitfield_width->0 > 0 && s[m].platform_bit_offset as int / 8 > (e - 1)
                / 8)
        }),
    ensures
        s[b].platform_bit_offset as int / 8 > (e - 1) / 8,
{
    let off_b = s[b].platform_bit_offset as int;
    let offm = s[m].platform_bit_offset as int;
    assert(offm >= e) by {
        crate::fields::lemma_wf_adjacent(s, m - 1);
    }
    if s[m].bitfield_width == Some(0u64) {
        // A zero-width marker is never the second bit-field, and the field
        // after it sits on a byte boundary past the group's end.
        assert(m < b);
        let off_next = s[m + 1].platform_bit_offset as int;
        assert(off_next % 8 == 0) by {
            crate::fields::lemma_marker_adjacent(s, m);
        }
        assert(off_next >= offm) by {
            crate::fields::lemma_wf_adjacent(s, m);
        }
        assert(off_next / 8 > (e - 1) / 8) by {
            vstd::arithmetic::div_mod::lemma_fundamental_div_mod(off_next, 8);
            vstd::arithmetic::div_mod::lemma_fundamental_div_mod(e - 1, 8);
            assert(off_next == 8 * (off_next / 8));
            assert(8 * ((e - 1) / 8) <= e - 1);
            assert(8 * (off_next / 8) > 8 * ((e - 1) / 8));
        }
        if b > m + 1 {
            lemma_off_monotone(s, m + 1, b);
            assert(crate::fields::eff_len(s[m + 1]) >= 0);
        }
        vstd::arithmetic::div_mod::lemma_div_is_ordered(off_next, off_b, 8);
    } else if s[m].bitfield_width is None {
        // An ordinary field sits on a byte boundary past the group's end.
        assert(m < b);
        assert(offm % 8 == 0);
        assert(offm / 8 > (e - 1) / 8) by {
            vstd::arithmetic::div_mod::lemma_fundamental_div_mod(offm, 8);
            vstd::arithmetic::div_mod::lemma_fundamental_div_mod(e - 1, 8);
            assert(offm == 8 * (offm / 8));
            assert(8 * ((e - 1) / 8) <= e - 1);
            assert(8 * (offm / 8) > 8 * ((e - 1) / 8));
        }
        lemma_off_monotone(s, m, b);
        assert(crate::fields::eff_len(s[m]) >= 0);
        vstd::arithmetic::div_mod::lemma_div_is_ordered(offm, off_b, 8);
    } else {
        // A byte-level gap: the bit-field after it already starts past the
        // group's last byte.
        if b > m {
            lemma_off_monotone(s, m, b);
            assert(crate::fields::eff_len(s[m]) >= 0);
            vstd::arithmetic::div_mod::lemma_div_is_ordered(offm, off_b, 8);
        }
    }
}

/// No group node holds the entries of two bit-fields when one of them starts
/// past the bytes of the node that holds the other.
proof fn lemma_no_shared_node(
    plan: Seq<FieldTypeV>,
    idx0: int,
    fa: FieldDescV,
    fb: FieldDescV,
)
    requires
        plan_groups_ok(plan),
        0 <= idx0 < plan.len(),
        has_attr_for(plan[idx0], fa),
        fb.platform_bit_offset as int / 8 > node_hi(plan[idx0]),
    ensures
        forall|gidx: int|
            0 <= gidx < plan.len() ==> !(has_attr_for(#[trigger] plan[gidx], fa)
                && has_attr_for(plan[gidx], fb)),
{
    assert forall|gidx: int| 0 <= gidx < plan.len() implies !(has_attr_for(
        #[trigger] plan[gidx],
        fa,
    ) && has_attr_for(plan[gidx], fb)) by {
        if has_attr_for(plan[gidx], fa) && has_attr_for(plan[gidx], fb) {
            lemma_attr_byte_in_node(plan, gidx, fa);
            lemma_attr_byte_in_node(plan, idx0, fa);
            lemma_unique_node_for_byte(plan, gidx, idx0, fa.platform_bit_offset as int / 8);
            lemma_attr_byte_in_node(plan, gidx, fb);
        }
    }
}

/// Group contiguity, separating direction: two bit-fields with a zero-width
/// marker, an ordinary field, or a byte-level gap anywhere between them in
/// declaration order never share a group node.  `m` names the first such
/// separator after the first bit-field.
pub proof fn lemma_group_contiguity_separated(
    s: Seq<FieldDescV>,
    total_bytes: u64,
    is_packed: bool,
    a: int,
    b: int,
    m: int,
)
    requires
        fields_wf(s),
        fields_marker_aligned(s),
        0 <= a < b < s.len(),
        s[a].bitfield_width is Some && s[a].bitfield_width->0 > 0,
        s[b].bitfield_width is Some && s[b].bitfield_width->0 > 0,
        a < m <= b,
        ({
            ||| s[m].bitfield_width == Some(0u64)
            ||| s[m].bitfield_width is None
            ||| (s[m].bitfield_width->0 > 0 && s[m].platform_bit_offset as int / 8 > class_run(
                init_state(),
                s.take(m),
                is_packed,
            ).next_byte_pos)
        }),
        // the first separator after the first bit-field
        forall|k: int|
            a < k < m ==> ((#[trigger] s[k].bitfield_width) is Some && s[k].bitfield_width->0 > 0
                && !(s[k].platform_bit_offset as int / 8 > class_run(
                init_state(),
                s.take(k),
                is_packed,
            ).next_byte_pos)),
    ensures
        forall|gidx: int|
            0 <= gidx < plan_of(s, total_bytes, is_packed).len() ==> !(has_attr_for(
                #[trigger] plan_of(s, total_bytes, is_packed)[gidx],
                s[a],
            ) && has_attr_for(plan_of(s, total_bytes, is_packed)[gidx], s[b])),
{
    let plan = plan_of(s, total_bytes, is_packed);
    // Up to the separator the group stays open and keeps the first
    // bit-field's entry; the separator closes it.
    lemma_attr_stays(s, is_packed, a, m);
    let stm = class_run(init_state(), s.take(m), is_packed);
    let g = stm.open->0;
    crate::fields::lemma_run_basic(s, is_packed, m);
    assert(s.take(m)[m - 1] == s[m - 1]);
    assert(s.take(m).last() == s[m - 1]);
    let e = s[m - 1].platform_bit_offset + s[m - 1].bitfield_width->0;
    assert(g.last_byte as int == (e - 1) / 8);
    assert(stm.next_byte_pos as int == g.last_byte + 1);
    lemma_flushed_node_lands(s, total_bytes, is_packed, m);
    let node = group_node(g);
    let idx0 = stm.plan.len() as int;
    assert(node_hi(node) == g.last_byte as int);
    assert(has_attr_for(node, s[a])) by {
        let k0 = choose|k: int|
            0 <= k < g.attrs.len() && (#[trigger] g.attrs[k]).bit_start + g.start_bit
                == s[a].platform_bit_offset && g.attrs[k].bit_end + g.start_bit
                == s[a].platform_bit_offset + s[a].bitfield_width->0 - 1;
        assert(node->BitfieldGroup_attrs[k0] == g.attrs[k0]);
    }
    lemma_second_field_past_group(s, is_packed, m, b, e);
    lemma_final_groups_ok(s, total_bytes, is_packed);
    lemma_no_shared_node(plan, idx0, s[a], s[b]);
}



/// After a bit-field of positive width, a group is open and its last entry
/// is that field's.
proof fn lemma_after_bitfield(s: Seq<FieldDescV>, is_packed: bool, a: int)
    requires
        fields_wf(s),
        0 <= a < s.len(),
        s[a].bitfield_width is Some && s[a].bitfield_width->0 > 0,
    ensures
        ({
            let st1 = class_run(init_state(), s.take(a + 1), is_packed);
            &&& st1.open is Some
            &&& st1.open->0.attrs.len() >= 1
            &&& st1.open->0.attrs[st1.open->0.attrs.len() - 1].bit_start
                + st1.open->0.start_bit == s[a].platform_bit_offset
            &&& st1.open->0.attrs[st1.open->0.attrs.len() - 1].bit_end + st1.open->0.start_bit
                == s[a].platform_bit_offset + s[a].bitfield_width->0 - 1
        }),
{
    let st0 = class_run(init_state(), s.take(a), is_packed);
    assert(s.take(a + 1) =~= s.take(a).push(s[a]));
    lemma_class_run_snoc(init_state(), s.take(a), s[a], is_packed);
    crate::fields::lemma_run_basic(s, is_packed, a);
    if st0.open is Some && !(s[a].platform_bit_offset as int / 8 > st0.next_byte_pos) {
        if a > 0 {
            assert(s.take(a)[a - 1] == s[a - 1]);
            assert(s.take(a).last() == s[a - 1]);
            crate::fields::lemma_wf_adjacent(s, a - 1);
        }
    }
}

/// Bit offsets grow along the declaration order, by at least each field's
/// effective length.
proof fn lemma_off_monotone(s: Seq<FieldDescV>, i: int, j: int)
    requires
        fields_wf(s),
        0 <= i < j < s.len(),
    ensures
        s[j].platform_bit_offset as int >= s[i].platform_bit_offset + crate::fields::eff_len(
            s[i],
        ),
    decreases j - i,
{
    crate::fields::lemma_wf_adjacent(s, i);
    if j > i + 1 {
        lemma_off_monotone(s, i + 1, j);
        assert(crate::fields::eff_len(s[i + 1]) >= 0);
    }
}

/// While only gapless bit-fields follow, the group stays open and keeps the
/// accessor entry of the bit-field that is being tracked.
proof fn lemma_attr_stays(s: Seq<FieldDescV>, is_packed: bool, a: int, j: int)
    requires
        fields_wf(s),
        0 <= a < j <= s.len(),
        s[a].bitfield_width is Some && s[a].bitfield_width->0 > 0,
        forall|k: int|
            a < k < j ==> ((#[trigger] s[k].bitfield_width) is Some && s[k].bitfield_width->0 > 0
                && !(s[k].platform_bit_offset as int / 8 > class_run(
                init_state(),
                s.take(k),
                is_packed,
            ).next_byte_pos)),
    ensures
        ({
            let st = class_run(init_state(), s.take(j), is_packed);
            &&& st.open is Some
            &&& exists|k: int|
                0 <= k < st.open->0.attrs.len() && (#[trigger] st.open->0.attrs[k]).bit_start
                    + st.open->0.start_bit == s[a].platform_bit_offset
                    && st.open->0.attrs[k].bit_end + st.open->0.start_bit
                == s[a].platform_bit_offset + s[a].bitfield_width->0 - 1
        }),
    decreases j,
{
    if j == a + 1 {
        lemma_after_bitfield(s, is_packed, a);
        let st = class_run(init_state(), s.take(j), is_packed);
        let g = st.open->0;
        assert(g.attrs[g.attrs.len() - 1].bit_start + g.start_bit == s[a].platform_bit_offset
            && g.attrs[g.attrs.len() - 1].bit_end + g.start_bit == s[a].platform_bit_offset
            + s[a].bitfield_width->0 - 1);
    } else {
        lemma_attr_stays(s, is_packed, a, j - 1);
        let st0 = class_run(init_state(), s.take(j - 1), is_packed);
        let f = s[j - 1];
        assert(f.bitfield_width is Some && f.bitfield_width->0 > 0 && !(f.platform_bit_offset
            as int / 8 > st0.next_byte_pos));
        assert(s.take(j) =~= s.take(j - 1).push(f));
        lemma_class_run_snoc(init_state(), s.take(j - 1), f, is_packed);
        let g0 = st0.open->0;
        let st1 = class_run(init_state(), s.take(j), is_packed);
        let g1 = st1.open->0;
        assert(g1.start_bit == g0.start_bit);
        let k0 = choose|k: int|
            0 <= k < g0.attrs.len() && (#[trigger] g0.attrs[k]).bit_start + g0.start_bit
                == s[a].platform_bit_offset && g0.attrs[k].bit_end + g0.start_bit
                == s[a].platform_bit_offset + s[a].bitfield_width->0 - 1;
        assert(g1.attrs[k0] == g0.attrs[k0]);
    }
}

/// A node holding a bit-field's accessor entry occupies that field's first
/// byte.
proof fn lemma_attr_byte_in_node(plan: Seq<FieldTypeV>, gidx: int, f: FieldDescV)
    requires
        plan_groups_ok(plan),
        0 <= gidx < plan.len(),
        has_attr_for(plan[gidx], f),
    ensures
        plan[gidx] is BitfieldGroup,
        node_lo(plan[gidx]) <= f.platform_bit_offset as int / 8 <= node_hi(plan[gidx]),
{
    let n = plan[gidx];
    let start_bit = n->BitfieldGroup_start_bit;
    let attrs = n->BitfieldGroup_attrs;
    let k = choose|k: int|
        0 <= k < attrs.len() && (#[trigger] attrs[k]).bit_start + start_bit
            == f.platform_bit_offset && attrs[k].bit_end + start_bit == f.platform_bit_offset
            + f.bitfield_width->0 - 1;
    assert(node_group_ok(n));
    assert(abs_lo(start_bit, attrs[k]) == f.platform_bit_offset as int / 8);
}

} // verus!
