//! The reorganizer's entry points: building the member-declaration list of a
//! restructured record, its zero and literal initializers, and the rewrite of
//! a compound assignment to a bit-field into accessor calls.
use vstd::prelude::*;

verus! {

use crate::ast::{BinOp, Expr, ExprV, FieldVal, FieldValV, Stmt, StmtV, WithStmts, WithStmtsV};
use crate::ast::{
    clone_expr, contains_block, exprs_view, fieldvals_view, spec_contains_block, stmts_view,
    lemma_stmts_view, lemma_fieldvals_view, lemma_exprs_view,
};
use crate::fields::{
    AttrV, BitfieldAttr, ClassState, FieldDescriptor, FieldDescV, FieldType, FieldTypeV, GroupAcc,
    attrs_view, class_run, class_step, fdescs_view, fields_wf, flush, ftypes_view, group_node,
    init_state, lemma_class_run_snoc, lemma_run_basic, lemma_wf_adjacent, plan_of,
};

/// Why a translation step cannot proceed; every failure aborts the current
/// structure or expression and is reported to the caller.
#[derive(Debug, Clone, Copy, PartialEq, Eq)]
pub enum TranslationError {
    /// Initialization was requested for a record whose field list is unknown.
    ForwardDeclarationZeroInit,
    /// A field's default or supplied initializer carries statements where a
    /// pure value is required.
    ImpureFieldExpression,
    /// The accessor-name service knows no name for a field id.
    FieldNameLookupFailure,
    /// An input violated a shape this component counts on, such as a block in
    /// value position that does not end in an expression.
    UnreachableShapeViolation,
    /// The rewriter was handed an operator that is not an assignment.
    UnsupportedOperator,
}

/// The per-field accessor metadata the rewriter consults: field id to
/// target-visible field name.
pub struct Translation {
    pub field_names: Vec<(u64, String)>,
}

pub open spec fn names_view(s: Seq<(u64, String)>) -> Seq<(u64, Seq<char>)> {
    Seq::new(s.len(), |i: int| (s[i].0, s[i].1@))
}

/// The name the accessor-metadata table gives a field id: the first entry
/// that carries the id, if any.
pub open spec fn spec_resolve(names: Seq<(u64, Seq<char>)>, id: u64) -> Option<Seq<char>>
    decreases names.len(),
{
    if names.len() == 0 {
        None
    } else if names[0].0 == id {
        Some(names[0].1)
    } else {
        spec_resolve(names.subrange(1, names.len() as int), id)
    }
}

impl View for Translation {
    type V = Seq<(u64, Seq<char>)>;

    open spec fn view(&self) -> Seq<(u64, Seq<char>)> {
        names_view(self.field_names@)
    }
}

impl Translation {
    /// Looks a field id up in the accessor-metadata table.
    pub fn resolve_field_name(&self, field_id: u64) -> (r: Option<String>)
        ensures
            match r {
                Some(n) => spec_resolve(self@, field_id) == Some(n@),
                None => spec_resolve(self@, field_id) is None,
            },
    {
        let names = &self.field_names;
        let ghost nv = names_view(names@);
        let mut i: usize = 0;
        proof {
            assert(nv.subrange(0, nv.len() as int) =~= nv);
        }
        while i < names.len()
            invariant
                0 <= i <= names@.len(),
                nv == names_view(names@),
                nv == self@,
                nv.len() == names@.len(),
                spec_resolve(nv, field_id) == spec_resolve(
                    nv.subrange(i as int, nv.len() as int),
                    field_id,
                ),
            decreases names@.len() - i,
        {
            proof {
                assert(nv.subrange(i as int, nv.len() as int).len() > 0);
                assert(nv.subrange(i as int, nv.len() as int)[0] == nv[i as int]);
                assert(nv.subrange(i as int, nv.len() as int).subrange(
                    1,
                    nv.len() as int - i,
                ) =~= nv.subrange(i as int + 1, nv.len() as int));
            }
            if names[i].0 == field_id {
                proof {
                    assert(nv[i as int] == (names@[i as int].0, names@[i as int].1@));
                    assert(nv.subrange(i as int, nv.len() as int)[0].0 == field_id);
                    assert(spec_resolve(nv.subrange(i as int, nv.len() as int), field_id)
                        == Some(nv[i as int].1));
                    assert(spec_resolve(nv, field_id) == Some(names@[i as int].1@));
                }
                let res = names[i].1.clone();
                proof {
                    assert(res@ == names@[i as int].1@);
                }
                return Some(res);
            }
            proof {
                assert(nv[i as int] == (names@[i as int].0, names@[i as int].1@));
            }
            i = i + 1;
        }
        proof {
            assert(nv.subrange(nv.len() as int, nv.len() as int).len() == 0);
        }
        None
    }
}

proof fn lemma_ftypes_view_push(v: Seq<FieldType>, x: FieldType)
    ensures
        ftypes_view(v.push(x)) == ftypes_view(v).push(x@),
{
    assert(ftypes_view(v.push(x)) =~= ftypes_view(v).push(x@));
}

proof fn lemma_attrs_view_push(v: Seq<BitfieldAttr>, x: BitfieldAttr)
    ensures
        attrs_view(v.push(x)) == attrs_view(v).push(x@),
{
    assert(attrs_view(v.push(x)) =~= attrs_view(v).push(x@));
}

/// The group being accumulated while a run of contiguous bit-fields is walked.
pub struct GroupAccExec {
    pub start_bit: u64,
    pub name: String,
    pub last_byte: u64,
    pub attrs: Vec<BitfieldAttr>,
}

impl View for GroupAccExec {
    type V = GroupAcc;

    open spec fn view(&self) -> GroupAcc {
        GroupAcc {
            start_bit: self.start_bit,
            name: self.name@,
            last_byte: self.last_byte,
            attrs: attrs_view(self.attrs@),
        }
    }
}

pub open spec fn opt_group_view(o: Option<GroupAccExec>) -> Option<GroupAcc> {
    match o {
        Some(g) => Some(g@),
        None => None,
    }
}

impl Translation {
    /// Walks the fields once and produces the reorganized plan: consecutive
    /// byte-sharing bit-fields collapse into one group, byte gaps and the
    /// shortfall against the declared size become padding, ordinary fields
    /// pass through (switched to their inner representation, plus a
    /// computed-padding member, when an aligned record is embedded in a packed
    /// one), and zero-width markers close the open group and vanish.
    pub fn get_field_types(
        &self,
        fields: &Vec<FieldDescriptor>,
        platform_byte_size: u64,
        is_packed: bool,
    ) -> (r: Vec<FieldType>)
        requires
            fields_wf(fdescs_view(fields@)),
        ensures
            ftypes_view(r@) == plan_of(fdescs_view(fields@), platform_byte_size, is_packed),
    {
        let ghost fv = fdescs_view(fields@);
        let mut reorganized_fields: Vec<FieldType> = Vec::new();
        let mut last_bitfield_group: Option<GroupAccExec> = None;
        let mut next_byte_pos: u64 = 0;
        let mut i: usize = 0;
        while i < fields.len()
            invariant
                0 <= i <= fields@.len(),
                fv == fdescs_view(fields@),
                fv.len() == fields@.len(),
                fields_wf(fv),
                ({
                    let st = class_run(init_state(), fv.take(i as int), is_packed);
                    &&& ftypes_view(reorganized_fields@) == st.plan
                    &&& st.next_byte_pos == next_byte_pos
                    &&& st.open == opt_group_view(last_bitfield_group)
                }),
            decreases fields@.len() - i,
        {
            let ghost st = class_run(init_state(), fv.take(i as int), is_packed);
            proof {
                lemma_run_basic(fv, is_packed, i as int);
                assert(fv.take(i as int + 1) =~= fv.take(i as int).push(fv[i as int]));
                lemma_class_run_snoc(init_state(), fv.take(i as int), fv[i as int], is_packed);
                assert(fv[i as int] == fields@[i as int]@);
                assert(field_wf_at(fv, i as int));
                if i > 0 {
                    assert(fv.take(i as int)[i - 1] == fv[i as int - 1]);
                    assert(fv.take(i as int).last() == fv[i as int - 1]);
                    lemma_wf_adjacent(fv, i as int - 1);
                }
            }
            let f = &fields[i];
            let off_bytes = f.platform_bit_offset / 8;
            match f.bitfield_width {
                Some(w) => {
                    if w == 0 {
                        // A zero-width marker only closes the open group.
                        let prev_group = last_bitfield_group;
                        last_bitfield_group = None;
                        if let Some(g) = prev_group {
                            let node = FieldType::BitfieldGroup {
                                start_bit: g.start_bit,
                                field_name: g.name,
                                bytes: g.last_byte - g.start_bit / 8 + 1,
                                attrs: g.attrs,
                            };
                            proof {
                                lemma_ftypes_view_push(reorganized_fields@, node);
                            }
                            reorganized_fields.push(node);
                        }
                    } else {
                        if off_bytes > next_byte_pos {
                            // A byte gap closes the open group and becomes
                            // explicit padding.
                            let prev_group = last_bitfield_group;
                            last_bitfield_group = None;
                            if let Some(g) = prev_group {
                                let node = FieldType::BitfieldGroup {
                                    start_bit: g.start_bit,
                                    field_name: g.name,
                                    bytes: g.last_byte - g.start_bit / 8 + 1,
                                    attrs: g.attrs,
                                };
                                proof {
                                    lemma_ftypes_view_push(reorganized_fields@, node);
                                }
                                reorganized_fields.push(node);
                            }
                            let pad = FieldType::Padding { bytes: off_bytes - next_byte_pos };
                            proof {
                                lemma_ftypes_view_push(reorganized_fields@, pad);
                            }
                            reorganized_fields.push(pad);
                        }
                        proof {
                            assert(f.platform_bit_offset + w <= u64::MAX);
                            vstd::arithmetic::div_mod::lemma_div_nonincreasing(
                                f.platform_bit_offset as int + w - 1,
                                8,
                            );
                        }
                        let last_new = (f.platform_bit_offset + w - 1) / 8;
                        let prev_group = last_bitfield_group;
                        match prev_group {
                            None => {
                                last_bitfield_group = Some(
                                    GroupAccExec {
                                        start_bit: f.platform_bit_offset,
                                        name: f.name.clone(),
                                        last_byte: last_new,
                                        attrs: vec![
                                            BitfieldAttr {
                                                name: f.name.clone(),
                                                ty: f.ty.clone(),
                                                bit_start: 0,
                                                bit_end: w - 1,
                                            },
                                        ],
                                    },
                                );
                                proof {
                                    assert(attrs_view(
                                        last_bitfield_group->0.attrs@,
                                    ) =~= seq![
                                        AttrV {
                                            name: f.name@,
                                            ty: f.ty@,
                                            bit_start: 0,
                                            bit_end: (w - 1) as u64,
                                        },
                                    ]);
                                }
                            },
                            Some(g) => {
                                let mut name = g.name;
                                name.append("_");
                                name.append(f.name.as_str());
                                let bit_start = f.platform_bit_offset - g.start_bit;
                                let attr = BitfieldAttr {
                                    name: f.name.clone(),
                                    ty: f.ty.clone(),
                                    bit_start,
                                    bit_end: bit_start + w - 1,
                                };
                                let mut attrs = g.attrs;
                                proof {
                                    lemma_attrs_view_push(attrs@, attr);
                                }
                                attrs.push(attr);
                                last_bitfield_group = Some(
                                    GroupAccExec {
                                        start_bit: g.start_bit,
                                        name,
                                        last_byte: if last_new > g.last_byte {
                                            last_new
                                        } else {
                                            g.last_byte
                                        },
                                        attrs,
                                    },
                                );
                            },
                        }
                        next_byte_pos = (f.platform_bit_offset + w - 1) / 8 + 1;
                    }
                },
                None => {
                    let prev_group = last_bitfield_group;
                    last_bitfield_group = None;
                    if let Some(g) = prev_group {
                        let node = FieldType::BitfieldGroup {
                            start_bit: g.start_bit,
                            field_name: g.name,
                            bytes: g.last_byte - g.start_bit / 8 + 1,
                            attrs: g.attrs,
                        };
                        proof {
                            lemma_ftypes_view_push(reorganized_fields@, node);
                        }
                        reorganized_fields.push(node);
                    }
                    if off_bytes > next_byte_pos {
                        let pad = FieldType::Padding { bytes: off_bytes - next_byte_pos };
                        proof {
                            lemma_ftypes_view_push(reorganized_fields@, pad);
                        }
                        reorganized_fields.push(pad);
                    }
                    let use_inner = is_packed && f.is_aligned_struct;
                    let node = FieldType::Regular {
                        name: f.name.clone(),
                        ty: if use_inner {
                            f.inner_type_name.clone()
                        } else {
                            f.ty.clone()
                        },
                        ctype: f.ctype,
                        bytes: f.platform_type_bitwidth / 8,
                        use_inner_type: use_inner,
                    };
                    proof {
                        lemma_ftypes_view_push(reorganized_fields@, node);
                    }
                    reorganized_fields.push(node);
                    if use_inner {
                        let pad = FieldType::ComputedPadding {
                            ident: f.padding_ident.clone(),
                        };
                        proof {
                            lemma_ftypes_view_push(reorganized_fields@, pad);
                        }
                        reorganized_fields.push(pad);
                    }
                    next_byte_pos = (f.platform_bit_offset + f.platform_type_bitwidth) / 8;
                },
            }
            i = i + 1;
        }
        proof {
            assert(fv.take(fv.len() as int) =~= fv);
            lemma_run_basic(fv, is_packed, fv.len() as int);
        }
        // Close a group still open at the end, then cover any shortfall
        // against the declared byte size; a packed layout may already reach
        // or exceed it.
        let prev_group = last_bitfield_group;
        if let Some(g) = prev_group {
            let node = FieldType::BitfieldGroup {
                start_bit: g.start_bit,
                field_name: g.name,
                bytes: g.last_byte - g.start_bit / 8 + 1,
                attrs: g.attrs,
            };
            proof {
                lemma_ftypes_view_push(reorganized_fields@, node);
            }
            reorganized_fields.push(node);
        }
        if platform_byte_size > next_byte_pos {
            let pad = FieldType::Padding { bytes: platform_byte_size - next_byte_pos };
            proof {
                lemma_ftypes_view_push(reorganized_fields@, pad);
            }
            reorganized_fields.push(pad);
        }
        reorganized_fields
    }
}

/// The well-formedness of one field of a list, stated so that a single index
/// can be named in proofs.
pub open spec fn field_wf_at(s: Seq<FieldDescV>, i: int) -> bool {
    0 <= i < s.len() && crate::fields::field_wf(s[i])
}

/// One member declaration of the restructured record.
#[derive(Debug, PartialEq, Eq)]
pub enum MemberDecl {
    /// The byte-array member backing a bit-field group, carrying the accessor
    /// metadata a downstream facility turns into getter/setter pairs.
    BitfieldArray { name: String, bytes: u64, attrs: Vec<BitfieldAttr> },
    /// Non-semantic filler, excluded from comparison and accessor generation.
    PaddingArray { name: String, bytes: u64 },
    /// Non-semantic filler whose length is the named identifier.
    ComputedPaddingArray { name: String, len_ident: String },
    /// An ordinary field's declaration, unchanged.
    Field { name: String, ty: String, use_inner_type: bool },
}

#[verifier::ext_equal]
pub ghost enum MemberDeclV {
    BitfieldArray { name: Seq<char>, bytes: u64, attrs: Seq<AttrV> },
    PaddingArray { name: Seq<char>, bytes: u64 },
    ComputedPaddingArray { name: Seq<char>, len_ident: Seq<char> },
    Field { name: Seq<char>, ty: Seq<char>, use_inner_type: bool },
}

impl View for MemberDecl {
    type V = MemberDeclV;

    open spec fn view(&self) -> MemberDeclV {
        match self {
            MemberDecl::BitfieldArray { name, bytes, attrs } => MemberDeclV::BitfieldArray {
                name: name@,
                bytes: *bytes,
                attrs: attrs_view(attrs@),
            },
            MemberDecl::PaddingArray { name, bytes } => MemberDeclV::PaddingArray {
                name: name@,
                bytes: *bytes,
            },
            MemberDecl::ComputedPaddingArray { name, len_ident } => {
                MemberDeclV::ComputedPaddingArray { name: name@, len_ident: len_ident@ }
            },
            MemberDecl::Field { name, ty, use_inner_type } => MemberDeclV::Field {
                name: name@,
                ty: ty@,
                use_inner_type: *use_inner_type,
            },
        }
    }
}

pub open spec fn mdecls_view(s: Seq<MemberDecl>) -> Seq<MemberDeclV> {
    Seq::new(s.len(), |i: int| s[i]@)
}

pub open spec fn pnames_view(s: Seq<String>) -> Seq<Seq<char>> {
    Seq::new(s.len(), |i: int| s[i]@)
}

/// How many padding names a plan node draws from the allocator.
pub open spec fn pad_cost(n: FieldTypeV) -> int {
    match n {
        FieldTypeV::Padding { .. } => 1,
        FieldTypeV::ComputedPadding { .. } => 1,
        _ => 0,
    }
}

/// How many padding names a plan draws in all, front to back.
pub open spec fn pad_count(s: Seq<FieldTypeV>) -> int
    decreases s.len(),
{
    if s.len() == 0 {
        0
    } else {
        pad_count(s.subrange(0, s.len() - 1)) + pad_cost(s[s.len() - 1])
    }
}

pub proof fn lemma_pad_count_push(s: Seq<FieldTypeV>, x: FieldTypeV)
    ensures
        pad_count(s.push(x)) == pad_count(s) + pad_cost(x),
{
    assert(s.push(x).subrange(0, s.len() as int) =~= s);
}

pub proof fn lemma_pad_count_nonneg(s: Seq<FieldTypeV>)
    ensures
        pad_count(s) >= 0,
    decreases s.len(),
{
    if s.len() > 0 {
        lemma_pad_count_nonneg(s.subrange(0, s.len() - 1));
    }
}

/// A prefix of a plan never draws more padding names than the whole plan.
pub proof fn lemma_pad_count_mono(s: Seq<FieldTypeV>, j: int)
    requires
        0 <= j <= s.len(),
    ensures
        pad_count(s.take(j)) <= pad_count(s),
    decreases s.len() - j,
{
    if j == s.len() {
        assert(s.take(j) =~= s);
    } else {
        lemma_pad_count_mono(s, j + 1);
        assert(s.take(j + 1) =~= s.take(j).push(s[j]));
        lemma_pad_count_push(s.take(j), s[j]);
    }
}

/// A classifier run adds at most two padding names for each field processed.
proof fn lemma_pad_count_run(st: ClassState, s: Seq<FieldDescV>, is_packed: bool)
    ensures
        pad_count(class_run(st, s, is_packed).plan) <= pad_count(st.plan) + 2 * s.len(),
    decreases s.len(),
{
    if s.len() > 0 {
        let st1 = class_step(st, s[0], is_packed);
        lemma_pad_count_run(st1, s.subrange(1, s.len() as int), is_packed);
        assert(pad_count(st1.plan) <= pad_count(st.plan) + 2) by {
            let f = s[0];
            let stf = flush(st);
            match st.open {
                None => {},
                Some(g) => {
                    lemma_pad_count_push(st.plan, group_node(g));
                },
            }
            let off = f.platform_bit_offset as int;
            match f.bitfield_width {
                Some(w) => {
                    if w != 0 && off / 8 > st.next_byte_pos {
                        lemma_pad_count_push(
                            stf.plan,
                            FieldTypeV::Padding {
                                bytes: (off / 8 - stf.next_byte_pos) as u64,
                            },
                        );
                    }
                },
                None => {
                    let base = if off / 8 > stf.next_byte_pos {
                        lemma_pad_count_push(
                            stf.plan,
                            FieldTypeV::Padding {
                                bytes: (off / 8 - stf.next_byte_pos) as u64,
                            },
                        );
                        stf.plan.push(
                            FieldTypeV::Padding {
                                bytes: (off / 8 - stf.next_byte_pos) as u64,
                            },
                        )
                    } else {
                        stf.plan
                    };
                    let use_inner = is_packed && f.is_aligned_struct;
                    let node = FieldTypeV::Regular {
                        name: f.name,
                        ty: if use_inner {
                            f.inner_type_name
                        } else {
                            f.ty
                        },
                        ctype: f.ctype,
                        bytes: (f.platform_type_bitwidth as int / 8) as u64,
                        use_inner_type: use_inner,
                    };
                    lemma_pad_count_push(base, node);
                    if use_inner {
                        lemma_pad_count_push(
                            base.push(node),
                            FieldTypeV::ComputedPadding { ident: f.padding_ident },
                        );
                    }
                },
            }
        }
    }
}

/// A plan draws at most `2 * fields + 1` padding names.
pub proof fn lemma_pad_count_bound(s: Seq<FieldDescV>, total_bytes: u64, is_packed: bool)
    ensures
        pad_count(plan_of(s, total_bytes, is_packed)) <= 2 * s.len() + 1,
{
    let st = class_run(init_state(), s, is_packed);
    lemma_pad_count_run(init_state(), s, is_packed);
    assert(pad_count(init_state().plan) == 0);
    let stf = flush(st);
    match st.open {
        None => {},
        Some(g) => {
            lemma_pad_count_push(st.plan, group_node(g));
        },
    }
    if total_bytes > stf.next_byte_pos {
        lemma_pad_count_push(
            stf.plan,
            FieldTypeV::Padding { bytes: (total_bytes - stf.next_byte_pos) as u64 },
        );
    }
}

/// The declaration a plan node becomes, with padding names drawn at the given
/// allocator position.
pub open spec fn member_of(n: FieldTypeV, pad_names: Seq<Seq<char>>, ctr: int) -> MemberDeclV {
    match n {
        FieldTypeV::BitfieldGroup { field_name, bytes, attrs, .. } => MemberDeclV::BitfieldArray {
            name: field_name,
            bytes,
            attrs,
        },
        FieldTypeV::Padding { bytes } => MemberDeclV::PaddingArray {
            name: pad_names[ctr],
            bytes,
        },
        FieldTypeV::ComputedPadding { ident } => MemberDeclV::ComputedPaddingArray {
            name: pad_names[ctr],
            len_ident: ident,
        },
        FieldTypeV::Regular { name, ty, use_inner_type, .. } => MemberDeclV::Field {
            name,
            ty,
            use_inner_type,
        },
    }
}

/// The member declarations of a plan: each padding member takes the next name
/// of the per-structure, zero-based allocator sequence, in plan order.
pub open spec fn members_of(plan: Seq<FieldTypeV>, pad_names: Seq<Seq<char>>) -> Seq<
    MemberDeclV,
> {
    Seq::new(plan.len(), |i: int| member_of(plan[i], pad_names, pad_count(plan.take(i))))
}

impl Translation {
    /// Emits the member declarations of the restructured record: one
    /// attribute-tagged byte array per bit-field group, one named filler per
    /// padding node, and each ordinary field as it stands.
    pub fn convert_struct_fields(
        &self,
        fields: &Vec<FieldDescriptor>,
        platform_byte_size: u64,
        is_packed: bool,
        padding_names: &Vec<String>,
    ) -> (r: Vec<MemberDecl>)
        requires
            fields_wf(fdescs_view(fields@)),
            padding_names@.len() >= 2 * fields@.len() + 1,
        ensures
            mdecls_view(r@) == members_of(
                plan_of(fdescs_view(fields@), platform_byte_size, is_packed),
                pnames_view(padding_names@),
            ),
    {
        let mut plan_vec = self.get_field_types(fields, platform_byte_size, is_packed);
        let ghost plan = ftypes_view(plan_vec@);
        let ghost pnames = pnames_view(padding_names@);
        proof {
            lemma_pad_count_bound(fdescs_view(fields@), platform_byte_size, is_packed);
        }
        let mut field_entries: Vec<MemberDecl> = Vec::new();
        let mut padding_count: usize = 0;
        let mut j: usize = 0;
        let n_plan = plan_vec.len();
        let n_names = padding_names.len();
        proof {
            assert(plan.len() == n_plan as int);
            assert(pnames.len() == n_names as int);
        }
        while plan_vec.len() > 0
            invariant
                0 <= j,
                j + plan_vec@.len() == plan.len(),
                plan.len() <= usize::MAX,
                pnames.len() <= usize::MAX,
                ftypes_view(plan_vec@) =~= plan.skip(j as int),
                pnames == pnames_view(padding_names@),
                pnames.len() >= pad_count(plan),
                padding_count as int == pad_count(plan.take(j as int)),
                mdecls_view(field_entries@) == members_of(plan, pnames).take(j as int),
            decreases plan_vec@.len(),
        {
            proof {
                assert(ftypes_view(plan_vec@)[0] == plan_vec@[0]@);
                assert(plan.skip(j as int)[0] == plan[j as int]);
                assert(plan.take(j as int + 1) =~= plan.take(j as int).push(plan[j as int]));
                lemma_pad_count_push(plan.take(j as int), plan[j as int]);
                lemma_pad_count_mono(plan, j as int + 1);
                lemma_pad_count_nonneg(plan.take(j as int));
                assert(ftypes_view(plan_vec@).subrange(1, plan_vec@.len() as int) =~= plan.skip(
                    j as int + 1,
                ));
            }
            let node = plan_vec.remove(0);
            proof {
                assert(node@ == plan[j as int]);
            }
            let entry = match node {
                FieldType::BitfieldGroup { start_bit: _, field_name, bytes, attrs } => {
                    MemberDecl::BitfieldArray { name: field_name, bytes, attrs }
                },
                FieldType::Padding { bytes } => {
                    let name = padding_names[padding_count].clone();
                    padding_count = padding_count + 1;
                    MemberDecl::PaddingArray { name, bytes }
                },
                FieldType::ComputedPadding { ident } => {
                    let name = padding_names[padding_count].clone();
                    padding_count = padding_count + 1;
                    MemberDecl::ComputedPaddingArray { name, len_ident: ident }
                },
                FieldType::Regular { name, ty, ctype: _, bytes: _, use_inner_type } => {
                    MemberDecl::Field { name, ty, use_inner_type }
                },
            };
            proof {
                assert(entry@ == member_of(plan[j as int], pnames, pad_count(plan.take(j as int))));
                assert(mdecls_view(field_entries@.push(entry)) =~= mdecls_view(
                    field_entries@,
                ).push(entry@));
                assert(members_of(plan, pnames).take(j as int + 1) =~= members_of(
                    plan,
                    pnames,
                ).take(j as int).push(members_of(plan, pnames)[j as int]));
            }
            field_entries.push(entry);
            j = j + 1;
        }
        proof {
            assert(members_of(plan, pnames).take(j as int) =~= members_of(plan, pnames));
        }
        field_entries
    }
}

pub open spec fn wdefs_view(s: Seq<WithStmts>) -> Seq<WithStmtsV> {
    Seq::new(s.len(), |i: int| s[i]@)
}

/// Whether every Regular node of a plan is bounded below the default table's
/// length.
pub open spec fn ctypes_bounded(plan: Seq<FieldTypeV>, bound: int) -> bool {
    forall|i: int|
        0 <= i < plan.len() ==> match #[trigger] plan[i] {
            FieldTypeV::Regular { ctype, .. } => ctype < bound,
            _ => true,
        }
}

proof fn lemma_ctypes_push(plan: Seq<FieldTypeV>, x: FieldTypeV, bound: int)
    requires
        ctypes_bounded(plan, bound),
        match x {
            FieldTypeV::Regular { ctype, .. } => ctype < bound,
            _ => true,
        },
    ensures
        ctypes_bounded(plan.push(x), bound),
{
    assert forall|i: int| 0 <= i < plan.push(x).len() implies match #[trigger] plan.push(x)[i] {
        FieldTypeV::Regular { ctype, .. } => ctype < bound,
        _ => true,
    } by {
        if i < plan.len() {
            assert(plan.push(x)[i] == plan[i]);
        } else {
            assert(plan.push(x)[i] == x);
        }
    }
}

proof fn lemma_ctype_run(st: ClassState, s: Seq<FieldDescV>, is_packed: bool, bound: int)
    requires
        ctypes_bounded(st.plan, bound),
        forall|k: int| 0 <= k < s.len() ==> (#[trigger] s[k].ctype) < bound,
    ensures
        ctypes_bounded(class_run(st, s, is_packed).plan, bound),
    decreases s.len(),
{
    if s.len() > 0 {
        let f = s[0];
        let st1 = class_step(st, f, is_packed);
        assert(ctypes_bounded(st1.plan, bound)) by {
            let stf = flush(st);
            match st.open {
                None => {},
                Some(g) => {
                    lemma_ctypes_push(st.plan, group_node(g), bound);
                },
            }
            let off = f.platform_bit_offset as int;
            match f.bitfield_width {
                Some(w) => {
                    if w != 0 && off / 8 > st.next_byte_pos {
                        lemma_ctypes_push(
                            stf.plan,
                            FieldTypeV::Padding { bytes: (off / 8 - stf.next_byte_pos) as u64 },
                            bound,
                        );
                    }
                },
                None => {
                    let base = if off / 8 > stf.next_byte_pos {
                        lemma_ctypes_push(
                            stf.plan,
                            FieldTypeV::Padding { bytes: (off / 8 - stf.next_byte_pos) as u64 },
                            bound,
                        );
                        stf.plan.push(
                            FieldTypeV::Padding { bytes: (off / 8 - stf.next_byte_pos) as u64 },
                        )
                    } else {
                        stf.plan
                    };
                    let use_inner = is_packed && f.is_aligned_struct;
                    let node = FieldTypeV::Regular {
                        name: f.name,
                        ty: if use_inner {
                            f.inner_type_name
                        } else {
                            f.ty
                        },
                        ctype: f.ctype,
                        bytes: (f.platform_type_bitwidth as int / 8) as u64,
                        use_inner_type: use_inner,
                    };
                    lemma_ctypes_push(base, node, bound);
                    if use_inner {
                        lemma_ctypes_push(
                            base.push(node),
                            FieldTypeV::ComputedPadding { ident: f.padding_ident },
                            bound,
                        );
                    }
                },
            }
        }
        assert(forall|k: int|
            0 <= k < s.subrange(1, s.len() as int).len() ==> (#[trigger] s.subrange(
                1,
                s.len() as int,
            )[k].ctype) < bound) by {
            assert forall|k: int| 0 <= k < s.len() - 1 implies (#[trigger] s.subrange(
                1,
                s.len() as int,
            )[k].ctype) < bound by {
                assert(s.subrange(1, s.len() as int)[k] == s[k + 1]);
            }
        }
        lemma_ctype_run(st1, s.subrange(1, s.len() as int), is_packed, bound);
    }
}

/// Every Regular node of a plan keeps its field's element-type handle below
/// the default table's length.
pub proof fn lemma_plan_ctype_bound(
    s: Seq<FieldDescV>,
    total_bytes: u64,
    is_packed: bool,
    bound: int,
)
    requires
        forall|k: int| 0 <= k < s.len() ==> (#[trigger] s[k].ctype) < bound,
    ensures
        ctypes_bounded(plan_of(s, total_bytes, is_packed), bound),
{
    let st = class_run(init_state(), s, is_packed);
    lemma_ctype_run(init_state(), s, is_packed, bound);
    let stf = flush(st);
    match st.open {
        None => {},
        Some(g) => {
            lemma_ctypes_push(st.plan, group_node(g), bound);
        },
    }
    if total_bytes > stf.next_byte_pos {
        lemma_ctypes_push(
            stf.plan,
            FieldTypeV::Padding { bytes: (total_bytes - stf.next_byte_pos) as u64 },
            bound,
        );
    }
}

/// Whether zero-initialization can proceed: the implicit default of every
/// ordinary field must be a pure value, with no preceding statements.
pub open spec fn zero_init_ok(plan: Seq<FieldTypeV>, defaults: Seq<WithStmtsV>) -> bool
    decreases plan.len(),
{
    if plan.len() == 0 {
        true
    } else {
        zero_init_ok(plan.subrange(0, plan.len() - 1), defaults) && match plan[plan.len() - 1] {
            FieldTypeV::Regular { ctype, .. } => defaults[ctype as int].stmts.len() == 0,
            _ => true,
        }
    }
}

/// Whether any default a zero-initialization uses needs an unchecked context.
pub open spec fn zero_init_unsafe(plan: Seq<FieldTypeV>, defaults: Seq<WithStmtsV>) -> bool
    decreases plan.len(),
{
    if plan.len() == 0 {
        false
    } else {
        zero_init_unsafe(plan.subrange(0, plan.len() - 1), defaults) || match plan[plan.len()
            - 1] {
            FieldTypeV::Regular { ctype, .. } => defaults[ctype as int].is_unsafe,
            _ => false,
        }
    }
}

pub proof fn lemma_zero_ok_push(plan: Seq<FieldTypeV>, x: FieldTypeV, defaults: Seq<WithStmtsV>)
    ensures
        zero_init_ok(plan.push(x), defaults) == (zero_init_ok(plan, defaults) && match x {
            FieldTypeV::Regular { ctype, .. } => defaults[ctype as int].stmts.len() == 0,
            _ => true,
        }),
        zero_init_unsafe(plan.push(x), defaults) == (zero_init_unsafe(plan, defaults) || match x {
            FieldTypeV::Regular { ctype, .. } => defaults[ctype as int].is_unsafe,
            _ => false,
        }),
{
    assert(plan.push(x).subrange(0, plan.len() as int) =~= plan);
}

/// Zero-initialization rejects nothing a full plan accepts: spoiling holds of
/// the whole once it holds of a prefix.
pub proof fn lemma_zero_ok_mono(plan: Seq<FieldTypeV>, defaults: Seq<WithStmtsV>, j: int)
    requires
        0 <= j <= plan.len(),
        zero_init_ok(plan, defaults),
    ensures
        zero_init_ok(plan.take(j), defaults),
    decreases plan.len() - j,
{
    if j == plan.len() {
        assert(plan.take(j) =~= plan);
    } else {
        lemma_zero_ok_mono(plan, defaults, j + 1);
        assert(plan.take(j + 1) =~= plan.take(j).push(plan[j]));
        lemma_zero_ok_push(plan.take(j), plan[j], defaults);
    }
}

/// The `name: value` entry a plan node contributes to a zero initializer: a
/// zero-filled byte array for groups and padding, the type's implicit default
/// for an ordinary field, unwrapped to the inner representation where the
/// field was switched to it.
pub open spec fn zero_fieldval(
    n: FieldTypeV,
    pad_names: Seq<Seq<char>>,
    ctr: int,
    defaults: Seq<WithStmtsV>,
) -> FieldValV {
    match n {
        FieldTypeV::BitfieldGroup { field_name, bytes, .. } => FieldValV {
            name: field_name,
            expr: ExprV::Repeat {
                elem: Box::new(ExprV::Lit(0)),
                len: Box::new(ExprV::Lit(bytes)),
            },
        },
        FieldTypeV::Padding { bytes } => FieldValV {
            name: pad_names[ctr],
            expr: ExprV::Repeat {
                elem: Box::new(ExprV::Lit(0)),
                len: Box::new(ExprV::Lit(bytes)),
            },
        },
        FieldTypeV::ComputedPadding { ident } => FieldValV {
            name: pad_names[ctr],
            expr: ExprV::Repeat {
                elem: Box::new(ExprV::Lit(0)),
                len: Box::new(ExprV::Ident(ident)),
            },
        },
        FieldTypeV::Regular { name, ctype, use_inner_type, .. } => FieldValV {
            name,
            expr: if use_inner_type {
                ExprV::FieldAccessIdx {
                    base: Box::new(defaults[ctype as int].val),
                    idx: 0,
                }
            } else {
                defaults[ctype as int].val
            },
        },
    }
}

/// The field entries of a zero initializer, in plan order.
pub open spec fn zero_vals(
    plan: Seq<FieldTypeV>,
    pad_names: Seq<Seq<char>>,
    defaults: Seq<WithStmtsV>,
) -> Seq<FieldValV> {
    Seq::new(
        plan.len(),
        |i: int| zero_fieldval(plan[i], pad_names, pad_count(plan.take(i)), defaults),
    )
}

impl Translation {
    /// Builds the zero initializer of the restructured record: every group and
    /// padding member becomes a zero-filled byte array, every ordinary field
    /// its type's implicit default.  Fails when a default carries statements
    /// where a pure value is required.
    pub fn convert_struct_zero_initializer(
        &self,
        name: &str,
        fields: &Vec<FieldDescriptor>,
        platform_byte_size: u64,
        is_packed: bool,
        defaults: &Vec<WithStmts>,
        padding_names: &Vec<String>,
    ) -> (r: Result<WithStmts, TranslationError>)
        requires
            fields_wf(fdescs_view(fields@)),
            padding_names@.len() >= 2 * fields@.len() + 1,
            forall|k: int|
                0 <= k < fields@.len() ==> (#[trigger] fdescs_view(fields@)[k].ctype)
                    < defaults@.len(),
        ensures
            ({
                let plan = plan_of(fdescs_view(fields@), platform_byte_size, is_packed);
                let dv = wdefs_view(defaults@);
                let pn = pnames_view(padding_names@);
                &&& (r is Ok <==> zero_init_ok(plan, dv))
                &&& (r is Err ==> r->Err_0 == TranslationError::ImpureFieldExpression)
                &&& (r is Ok ==> r->Ok_0@ == WithStmtsV {
                    stmts: Seq::empty(),
                    val: ExprV::StructLit { name: name@, fields: zero_vals(plan, pn, dv) },
                    is_unsafe: zero_init_unsafe(plan, dv),
                })
            }),
    {
        let mut plan_vec = self.get_field_types(fields, platform_byte_size, is_packed);
        let ghost plan = ftypes_view(plan_vec@);
        let ghost pn = pnames_view(padding_names@);
        let ghost dv = wdefs_view(defaults@);
        proof {
            lemma_pad_count_bound(fdescs_view(fields@), platform_byte_size, is_packed);
            lemma_plan_ctype_bound(
                fdescs_view(fields@),
                platform_byte_size,
                is_packed,
                defaults@.len() as int,
            );
        }
        let mut vals: Vec<FieldVal> = Vec::new();
        let mut is_unsafe = false;
        let mut padding_count: usize = 0;
        let mut j: usize = 0;
        let n_defaults = defaults.len();
        let n_names = padding_names.len();
        let n_plan = plan_vec.len();
        proof {
            assert(pn.len() == n_names as int);
            assert(dv.len() == n_defaults as int);
            assert(plan.len() == n_plan as int);
        }
        while plan_vec.len() > 0
            invariant
                0 <= j,
                j + plan_vec@.len() == plan.len(),
                plan.len() <= usize::MAX,
                pn.len() <= usize::MAX,
                dv.len() <= usize::MAX,
                ftypes_view(plan_vec@) =~= plan.skip(j as int),
                plan == plan_of(fdescs_view(fields@), platform_byte_size, is_packed),
                pn == pnames_view(padding_names@),
                dv == wdefs_view(defaults@),
                dv.len() == defaults@.len(),
                pn.len() >= pad_count(plan),
                ctypes_bounded(plan, dv.len() as int),
                padding_count as int == pad_count(plan.take(j as int)),
                fieldvals_view(vals@) == zero_vals(plan, pn, dv).take(j as int),
                zero_init_ok(plan.take(j as int), dv),
                is_unsafe == zero_init_unsafe(plan.take(j as int), dv),
            decreases plan_vec@.len(),
        {
            proof {
                assert(ftypes_view(plan_vec@)[0] == plan_vec@[0]@);
                assert(plan.skip(j as int)[0] == plan[j as int]);
                assert(plan.take(j as int + 1) =~= plan.take(j as int).push(plan[j as int]));
                lemma_pad_count_push(plan.take(j as int), plan[j as int]);
                lemma_pad_count_mono(plan, j as int + 1);
                lemma_pad_count_nonneg(plan.take(j as int));
                lemma_zero_ok_push(plan.take(j as int), plan[j as int], dv);
                assert(ftypes_view(plan_vec@).subrange(1, plan_vec@.len() as int) =~= plan.skip(
                    j as int + 1,
                ));
                lemma_fieldvals_view(vals@);
            }
            let node = plan_vec.remove(0);
            proof {
                assert(node@ == plan[j as int]);
            }
            let entry = match node {
                FieldType::BitfieldGroup { start_bit: _, field_name, bytes, attrs: _ } => {
                    FieldVal {
                        name: field_name,
                        expr: Expr::Repeat {
                            elem: Box::new(Expr::Lit(0)),
                            len: Box::new(Expr::Lit(bytes)),
                        },
                    }
                },
                FieldType::Padding { bytes } => {
                    proof {
                        assert(pn[padding_count as int] == padding_names@[padding_count as int]@);
                    }
                    let pname = padding_names[padding_count].clone();
                    padding_count = padding_count + 1;
                    FieldVal {
                        name: pname,
                        expr: Expr::Repeat {
                            elem: Box::new(Expr::Lit(0)),
                            len: Box::new(Expr::Lit(bytes)),
                        },
                    }
                },
                FieldType::ComputedPadding { ident } => {
                    proof {
                        assert(pn[padding_count as int] == padding_names@[padding_count as int]@);
                    }
                    let pname = padding_names[padding_count].clone();
                    padding_count = padding_count + 1;
                    FieldVal {
                        name: pname,
                        expr: Expr::Repeat {
                            elem: Box::new(Expr::Lit(0)),
                            len: Box::new(Expr::Ident(ident)),
                        },
                    }
                },
                FieldType::Regular { name: fname, ty: _, ctype, bytes: _, use_inner_type } => {
                    proof {
                        assert(ctype < dv.len());
                        assert(dv[ctype as int] == defaults@[ctype as int]@);
                    }
                    let d = &defaults[ctype as usize];
                    proof {
                        lemma_stmts_view(d.stmts@);
                    }
                    if !d.is_pure() {
                        proof {
                            assert(dv[ctype as int].stmts.len() != 0);
                            assert(!zero_init_ok(plan.take(j as int + 1), dv));
                            if zero_init_ok(plan, dv) {
                                lemma_zero_ok_mono(plan, dv, j as int + 1);
                            }
                        }
                        return Err(TranslationError::ImpureFieldExpression);
                    }
                    is_unsafe = is_unsafe || d.is_unsafe;
                    let dval = clone_expr(&d.val);
                    FieldVal {
                        name: fname,
                        expr: if use_inner_type {
                            Expr::FieldAccessIdx { base: Box::new(dval), idx: 0 }
                        } else {
                            dval
                        },
                    }
                },
            };
            proof {
                assert(entry@ == zero_fieldval(
                    plan[j as int],
                    pn,
                    pad_count(plan.take(j as int)),
                    dv,
                ));
                lemma_fieldvals_view(vals@.push(entry));
                assert(fieldvals_view(vals@.push(entry)) =~= fieldvals_view(vals@).push(entry@));
                assert(zero_vals(plan, pn, dv).take(j as int + 1) =~= zero_vals(
                    plan,
                    pn,
                    dv,
                ).take(j as int).push(zero_vals(plan, pn, dv)[j as int]));
            }
            vals.push(entry);
            j = j + 1;
        }
        proof {
            assert(plan.take(j as int) =~= plan);
            assert(zero_vals(plan, pn, dv).take(j as int) =~= zero_vals(plan, pn, dv));
        }
        let result = WithStmts {
            stmts: Vec::new(),
            val: Expr::StructLit { name: String::from_str(name), fields: vals },
            is_unsafe,
        };
        proof {
            assert(stmts_view(result.stmts@) =~= Seq::<StmtV>::empty());
        }
        Ok(result)
    }
}

/// A record to initialize: its target name, its fields where the definition
/// is known (`None` for a record only forward-declared), its declared byte
/// size, and whether it is packed.
pub struct RecordDecl {
    pub name: String,
    pub fields: Option<Vec<FieldDescriptor>>,
    pub platform_byte_size: u64,
    pub is_packed: bool,
}

/// The fields a literal initializer addresses: every field but the zero-width
/// markers, in declaration order.
pub open spec fn nonmarkers(s: Seq<FieldDescV>) -> Seq<FieldDescV>
    decreases s.len(),
{
    if s.len() == 0 {
        Seq::empty()
    } else {
        let rest = nonmarkers(s.subrange(0, s.len() - 1));
        if s[s.len() - 1].bitfield_width == Some(0u64) {
            rest
        } else {
            rest.push(s[s.len() - 1])
        }
    }
}

pub proof fn lemma_nonmarkers_push(s: Seq<FieldDescV>, f: FieldDescV)
    ensures
        nonmarkers(s.push(f)) == if f.bitfield_width == Some(0u64) {
            nonmarkers(s)
        } else {
            nonmarkers(s).push(f)
        },
{
    assert(s.push(f).subrange(0, s.len() as int) =~= s);
}

pub proof fn lemma_nonmarkers_len(s: Seq<FieldDescV>)
    ensures
        nonmarkers(s).len() <= s.len(),
    decreases s.len(),
{
    if s.len() > 0 {
        lemma_nonmarkers_len(s.subrange(0, s.len() - 1));
    }
}

/// The non-marker fields of a prefix are a prefix of the non-marker fields of
/// the whole list.
pub proof fn lemma_nonmarkers_prefix(s: Seq<FieldDescV>, k: int)
    requires
        0 <= k <= s.len(),
    ensures
        nonmarkers(s.take(k)).len() <= nonmarkers(s).len(),
        nonmarkers(s).take(nonmarkers(s.take(k)).len() as int) == nonmarkers(s.take(k)),
    decreases s.len() - k,
{
    if k == s.len() {
        assert(s.take(k) =~= s);
        assert(nonmarkers(s).take(nonmarkers(s).len() as int) =~= nonmarkers(s));
    } else {
        lemma_nonmarkers_prefix(s, k + 1);
        assert(s.take(k + 1) =~= s.take(k).push(s[k]));
        lemma_nonmarkers_push(s.take(k), s[k]);
        let a = nonmarkers(s.take(k));
        let b = nonmarkers(s.take(k + 1));
        assert(nonmarkers(s).take(b.len() as int) == b);
        if s[k].bitfield_width == Some(0u64) {
        } else {
            assert(nonmarkers(s).take(a.len() as int) =~= nonmarkers(s).take(
                b.len() as int,
            ).take(a.len() as int));
            assert(b.take(a.len() as int) =~= a);
        }
    }
}

/// Unwraps a value to its layout-compatible inner representation when the
/// field was switched to it: structurally, field `0` of the produced value.
pub open spec fn wrap_inner(e: ExprV, use_inner: bool) -> ExprV {
    if use_inner {
        ExprV::FieldAccessIdx { base: Box::new(e), idx: 0 }
    } else {
        e
    }
}

/// Whether the initializer expression for target `t` is acceptable: a supplied
/// expression must be pure, and the implicit default of an unsupplied
/// ordinary field must be pure.
pub open spec fn target_ok(
    f: FieldDescV,
    t: int,
    ev: Seq<WithStmtsV>,
    dv: Seq<WithStmtsV>,
) -> bool {
    &&& t < ev.len() ==> ev[t].stmts.len() == 0
    &&& (t >= ev.len() && f.bitfield_width is None) ==> dv[f.ctype as int].stmts.len() == 0
}

pub open spec fn literal_ok(
    targets: Seq<FieldDescV>,
    ev: Seq<WithStmtsV>,
    dv: Seq<WithStmtsV>,
) -> bool {
    forall|t: int| 0 <= t < targets.len() ==> target_ok(#[trigger] targets[t], t, ev, dv)
}

/// The `name: value` entries the ordinary fields contribute to the literal:
/// supplied expressions in position order, implicit defaults past the supplied
/// ones; bit-field targets contribute nothing here.
pub open spec fn lit_regular_vals(
    targets: Seq<FieldDescV>,
    ev: Seq<WithStmtsV>,
    dv: Seq<WithStmtsV>,
    is_packed: bool,
) -> Seq<FieldValV>
    decreases targets.len(),
{
    if targets.len() == 0 {
        Seq::empty()
    } else {
        let t = targets.len() - 1;
        let f = targets[t];
        let rest = lit_regular_vals(targets.subrange(0, t), ev, dv, is_packed);
        if f.bitfield_width is None {
            let ui = is_packed && f.is_aligned_struct;
            let e = if t < ev.len() {
                ev[t].val
            } else {
                dv[f.ctype as int].val
            };
            rest.push(FieldValV { name: f.name, expr: wrap_inner(e, ui) })
        } else {
            rest
        }
    }
}

/// The deferred bit-field initializations: each supplied bit-field expression,
/// in declaration order, applied through a setter after construction.
pub open spec fn lit_bf_inits(
    targets: Seq<FieldDescV>,
    ev: Seq<WithStmtsV>,
    is_packed: bool,
) -> Seq<(Seq<char>, ExprV)>
    decreases targets.len(),
{
    if targets.len() == 0 {
        Seq::empty()
    } else {
        let t = targets.len() - 1;
        let f = targets[t];
        let rest = lit_bf_inits(targets.subrange(0, t), ev, is_packed);
        if f.bitfield_width is Some && f.bitfield_width->0 > 0 && t < ev.len() {
            let ui = is_packed && f.is_aligned_struct;
            rest.push((f.name, wrap_inner(ev[t].val, ui)))
        } else {
            rest
        }
    }
}

/// Whether any expression the literal uses needs an unchecked context.
pub open spec fn lit_unsafe(
    targets: Seq<FieldDescV>,
    ev: Seq<WithStmtsV>,
    dv: Seq<WithStmtsV>,
) -> bool
    decreases targets.len(),
{
    if targets.len() == 0 {
        false
    } else {
        let t = targets.len() - 1;
        let f = targets[t];
        lit_unsafe(targets.subrange(0, t), ev, dv) || if t < ev.len() {
            ev[t].is_unsafe
        } else if f.bitfield_width is None {
            dv[f.ctype as int].is_unsafe
        } else {
            false
        }
    }
}

pub proof fn lemma_lit_push(
    targets: Seq<FieldDescV>,
    f: FieldDescV,
    ev: Seq<WithStmtsV>,
    dv: Seq<WithStmtsV>,
    is_packed: bool,
)
    ensures
        lit_regular_vals(targets.push(f), ev, dv, is_packed) == if f.bitfield_width is None {
            lit_regular_vals(targets, ev, dv, is_packed).push(
                FieldValV {
                    name: f.name,
                    expr: wrap_inner(
                        if targets.len() < ev.len() {
                            ev[targets.len() as int].val
                        } else {
                            dv[f.ctype as int].val
                        },
                        is_packed && f.is_aligned_struct,
                    ),
                },
            )
        } else {
            lit_regular_vals(targets, ev, dv, is_packed)
        },
        lit_bf_inits(targets.push(f), ev, is_packed) == if f.bitfield_width is Some
            && f.bitfield_width->0 > 0 && targets.len() < ev.len() {
            lit_bf_inits(targets, ev, is_packed).push(
                (
                    f.name,
                    wrap_inner(ev[targets.len() as int].val, is_packed && f.is_aligned_struct),
                ),
            )
        } else {
            lit_bf_inits(targets, ev, is_packed)
        },
        lit_unsafe(targets.push(f), ev, dv) == (lit_unsafe(targets, ev, dv)
            || if targets.len() < ev.len() {
            ev[targets.len() as int].is_unsafe
        } else if f.bitfield_width is None {
            dv[f.ctype as int].is_unsafe
        } else {
            false
        }),
{
    assert(targets.push(f).subrange(0, targets.len() as int) =~= targets);
}

/// The zero-filled entries a literal starts from: one per bit-field group and
/// padding node, in plan order; ordinary fields are filled separately.
pub open spec fn zerofill_vals(plan: Seq<FieldTypeV>, pad_names: Seq<Seq<char>>) -> Seq<
    FieldValV,
>
    decreases plan.len(),
{
    if plan.len() == 0 {
        Seq::empty()
    } else {
        let rest = zerofill_vals(plan.subrange(0, plan.len() - 1), pad_names);
        let ctr = pad_count(plan.subrange(0, plan.len() - 1));
        match plan[plan.len() - 1] {
            FieldTypeV::BitfieldGroup { field_name, bytes, .. } => rest.push(
                FieldValV {
                    name: field_name,
                    expr: ExprV::Repeat {
                        elem: Box::new(ExprV::Lit(0)),
                        len: Box::new(ExprV::Lit(bytes)),
                    },
                },
            ),
            FieldTypeV::Padding { bytes } => rest.push(
                FieldValV {
                    name: pad_names[ctr],
                    expr: ExprV::Repeat {
                        elem: Box::new(ExprV::Lit(0)),
                        len: Box::new(ExprV::Lit(bytes)),
                    },
                },
            ),
            FieldTypeV::ComputedPadding { ident } => rest.push(
                FieldValV {
                    name: pad_names[ctr],
                    expr: ExprV::Repeat {
                        elem: Box::new(ExprV::Lit(0)),
                        len: Box::new(ExprV::Ident(ident)),
                    },
                },
            ),
            FieldTypeV::Regular { .. } => rest,
        }
    }
}

pub proof fn lemma_zerofill_push(plan: Seq<FieldTypeV>, x: FieldTypeV, pad_names: Seq<Seq<char>>)
    ensures
        zerofill_vals(plan.push(x), pad_names) == match x {
            FieldTypeV::BitfieldGroup { field_name, bytes, .. } => zerofill_vals(
                plan,
                pad_names,
            ).push(
                FieldValV {
                    name: field_name,
                    expr: ExprV::Repeat {
                        elem: Box::new(ExprV::Lit(0)),
                        len: Box::new(ExprV::Lit(bytes)),
                    },
                },
            ),
            FieldTypeV::Padding { bytes } => zerofill_vals(plan, pad_names).push(
                FieldValV {
                    name: pad_names[pad_count(plan)],
                    expr: ExprV::Repeat {
                        elem: Box::new(ExprV::Lit(0)),
                        len: Box::new(ExprV::Lit(bytes)),
                    },
                },
            ),
            FieldTypeV::ComputedPadding { ident } => zerofill_vals(plan, pad_names).push(
                FieldValV {
                    name: pad_names[pad_count(plan)],
                    expr: ExprV::Repeat {
                        elem: Box::new(ExprV::Lit(0)),
                        len: Box::new(ExprV::Ident(ident)),
                    },
                },
            ),
            FieldTypeV::Regular { .. } => zerofill_vals(plan, pad_names),
        },
{
    assert(plan.push(x).subrange(0, plan.len() as int) =~= plan);
}

/// The setter statements applying the deferred bit-field initializations to
/// the freshly bound temporary.
pub open spec fn setter_stmts(inits: Seq<(Seq<char>, ExprV)>) -> Seq<StmtV> {
    Seq::new(
        inits.len(),
        |i: int|
            StmtV::Expr(
                ExprV::MethodCall {
                    receiver: Box::new(ExprV::Ident("init"@)),
                    method: "set_"@ + inits[i].0,
                    args: seq![inits[i].1],
                },
            ),
    )
}

/// The statements of the block a literal initializer produces: the temporary
/// bound to the base literal, one setter per deferred bit-field, and the
/// temporary as the block's value.
pub open spec fn literal_block_stmts(
    record_name: Seq<char>,
    plan: Seq<FieldTypeV>,
    targets: Seq<FieldDescV>,
    ev: Seq<WithStmtsV>,
    dv: Seq<WithStmtsV>,
    pn: Seq<Seq<char>>,
    is_packed: bool,
) -> Seq<StmtV> {
    seq![
        StmtV::Local {
            name: "init"@,
            init: ExprV::StructLit {
                name: record_name,
                fields: zerofill_vals(plan, pn) + lit_regular_vals(targets, ev, dv, is_packed),
            },
        },
    ] + setter_stmts(lit_bf_inits(targets, ev, is_packed)) + seq![
        StmtV::Expr(ExprV::Ident("init"@)),
    ]
}

pub open spec fn bfpairs_view(s: Seq<(String, Expr)>) -> Seq<(Seq<char>, ExprV)> {
    Seq::new(s.len(), |i: int| (s[i].0@, s[i].1@))
}

impl Translation {
    /// Builds a literal initializer for the restructured record: a block that
    /// binds a temporary to a literal holding zero-filled group and padding
    /// arrays plus the ordinary fields (supplied expressions in position
    /// order, implicit defaults past them), applies every supplied bit-field
    /// value through a setter call, and yields the temporary.  Fails when a
    /// used expression or default carries statements where a pure value is
    /// required.
    pub fn convert_struct_literal(
        &self,
        record: &RecordDecl,
        field_exprs: &Vec<WithStmts>,
        defaults: &Vec<WithStmts>,
        padding_names: &Vec<String>,
    ) -> (r: Result<WithStmts, TranslationError>)
        requires
            record.fields matches Some(fs) ==> {
                let s = fdescs_view(fs@);
                &&& fields_wf(s)
                &&& padding_names@.len() >= 2 * s.len() + 1
                &&& forall|k: int| 0 <= k < s.len() ==> (#[trigger] s[k].ctype) < defaults@.len()
                &&& field_exprs@.len() <= nonmarkers(s).len()
            },
        ensures
            record.fields is None ==> r == Err::<WithStmts, TranslationError>(
                TranslationError::ForwardDeclarationZeroInit,
            ),
            record.fields matches Some(fs) ==> {
                let s = fdescs_view(fs@);
                let plan = plan_of(s, record.platform_byte_size, record.is_packed);
                let targets = nonmarkers(s);
                let ev = wdefs_view(field_exprs@);
                let dv = wdefs_view(defaults@);
                let pn = pnames_view(padding_names@);
                &&& (r is Ok <==> literal_ok(targets, ev, dv))
                &&& (r is Err ==> r->Err_0 == TranslationError::ImpureFieldExpression)
                &&& (r is Ok ==> r->Ok_0@ == WithStmtsV {
                    stmts: Seq::empty(),
                    val: ExprV::Block {
                        stmts: literal_block_stmts(
                            record.name@,
                            plan,
                            targets,
                            ev,
                            dv,
                            pn,
                            record.is_packed,
                        ),
                    },
                    is_unsafe: lit_unsafe(targets, ev, dv),
                })
            },
    {
        let fields = match &record.fields {
            None => {
                return Err(TranslationError::ForwardDeclarationZeroInit);
            },
            Some(fs) => fs,
        };
        let ghost s = fdescs_view(fields@);
        let ghost ev = wdefs_view(field_exprs@);
        let ghost dv = wdefs_view(defaults@);
        let ghost pn = pnames_view(padding_names@);
        let is_packed = record.is_packed;
        let mut plan_vec = self.get_field_types(fields, record.platform_byte_size, is_packed);
        let ghost plan = ftypes_view(plan_vec@);
        proof {
            lemma_pad_count_bound(s, record.platform_byte_size, is_packed);
        }
        // Zero-filled entries for the group and padding members, in plan
        // order.
        let mut vals: Vec<FieldVal> = Vec::new();
        let mut padding_count: usize = 0;
        let mut j: usize = 0;
        let n_names = padding_names.len();
        let n_plan = plan_vec.len();
        proof {
            assert(pn.len() == n_names as int);
            assert(plan.len() == n_plan as int);
        }
        while plan_vec.len() > 0
            invariant
                0 <= j,
                j + plan_vec@.len() == plan.len(),
                plan.len() <= usize::MAX,
                pn.len() <= usize::MAX,
                ftypes_view(plan_vec@) =~= plan.skip(j as int),
                pn == pnames_view(padding_names@),
                pn.len() >= pad_count(plan),
                padding_count as int == pad_count(plan.take(j as int)),
                fieldvals_view(vals@) == zerofill_vals(plan.take(j as int), pn),
            decreases plan_vec@.len(),
        {
            proof {
                assert(ftypes_view(plan_vec@)[0] == plan_vec@[0]@);
                assert(plan.skip(j as int)[0] == plan[j as int]);
                assert(plan.take(j as int + 1) =~= plan.take(j as int).push(plan[j as int]));
                lemma_pad_count_push(plan.take(j as int), plan[j as int]);
                lemma_pad_count_mono(plan, j as int + 1);
                lemma_pad_count_nonneg(plan.take(j as int));
                lemma_zerofill_push(plan.take(j as int), plan[j as int], pn);
                assert(ftypes_view(plan_vec@).subrange(1, plan_vec@.len() as int) =~= plan.skip(
                    j as int + 1,
                ));
                lemma_fieldvals_view(vals@);
            }
            let node = plan_vec.remove(0);
            proof {
                assert(node@ == plan[j as int]);
            }
            match node {
                FieldType::BitfieldGroup { start_bit: _, field_name, bytes, attrs: _ } => {
                    let entry = FieldVal {
                        name: field_name,
                        expr: Expr::Repeat {
                            elem: Box::new(Expr::Lit(0)),
                            len: Box::new(Expr::Lit(bytes)),
                        },
                    };
                    proof {
                        lemma_fieldvals_view(vals@.push(entry));
                        assert(fieldvals_view(vals@.push(entry)) =~= fieldvals_view(vals@).push(
                            entry@,
                        ));
                    }
                    vals.push(entry);
                },
                FieldType::Padding { bytes } => {
                    proof {
                        assert(pn[padding_count as int] == padding_names@[padding_count as int]@);
                    }
                    let pname = padding_names[padding_count].clone();
                    padding_count = padding_count + 1;
                    let entry = FieldVal {
                        name: pname,
                        expr: Expr::Repeat {
                            elem: Box::new(Expr::Lit(0)),
                            len: Box::new(Expr::Lit(bytes)),
                        },
                    };
                    proof {
                        lemma_fieldvals_view(vals@.push(entry));
                        assert(fieldvals_view(vals@.push(entry)) =~= fieldvals_view(vals@).push(
                            entry@,
                        ));
                    }
                    vals.push(entry);
                },
                FieldType::ComputedPadding { ident } => {
                    proof {
                        assert(pn[padding_count as int] == padding_names@[padding_count as int]@);
                    }
                    let pname = padding_names[padding_count].clone();
                    padding_count = padding_count + 1;
                    let entry = FieldVal {
                        name: pname,
                        expr: Expr::Repeat {
                            elem: Box::new(Expr::Lit(0)),
                            len: Box::new(Expr::Ident(ident)),
                        },
                    };
                    proof {
                        lemma_fieldvals_view(vals@.push(entry));
                        assert(fieldvals_view(vals@.push(entry)) =~= fieldvals_view(vals@).push(
                            entry@,
                        ));
                    }
                    vals.push(entry);
                },
                FieldType::Regular { .. } => {},
            }
            j = j + 1;
        }
        proof {
            assert(plan.take(j as int) =~= plan);
        }
        // Ordinary fields in declaration order, supplied expressions zipped by
        // position against the non-marker fields; supplied bit-field values
        // are deferred to setter calls.
        let mut rvals: Vec<FieldVal> = Vec::new();
        let mut bf_inits: Vec<(String, Expr)> = Vec::new();
        let mut is_unsafe = false;
        let mut t: usize = 0;
        let mut k: usize = 0;
        let n_exprs = field_exprs.len();
        let n_fields = fields.len();
        let n_defaults = defaults.len();
        proof {
            assert(s.len() == n_fields as int);
            assert(ev.len() == n_exprs as int);
            assert(dv.len() == n_defaults as int);
        }
        while k < fields.len()
            invariant
                0 <= k <= s.len(),
                record.fields matches Some(fs) && fdescs_view(fs@) == s,
                s == fdescs_view(fields@),
                s.len() == fields@.len(),
                ev == wdefs_view(field_exprs@),
                dv == wdefs_view(defaults@),
                ev.len() == field_exprs@.len(),
                dv.len() == defaults@.len(),
                s.len() <= usize::MAX,
                dv.len() <= usize::MAX,
                ev.len() <= usize::MAX,
                fields_wf(s),
                ev.len() <= nonmarkers(s).len(),
                forall|q: int| 0 <= q < s.len() ==> (#[trigger] s[q].ctype) < dv.len(),
                t as int == nonmarkers(s.take(k as int)).len(),
                literal_ok(nonmarkers(s.take(k as int)), ev, dv),
                fieldvals_view(rvals@) == lit_regular_vals(
                    nonmarkers(s.take(k as int)),
                    ev,
                    dv,
                    is_packed,
                ),
                bfpairs_view(bf_inits@) == lit_bf_inits(nonmarkers(s.take(k as int)), ev, is_packed),
                is_unsafe == lit_unsafe(nonmarkers(s.take(k as int)), ev, dv),
            decreases s.len() - k,
        {
            let ghost tg = nonmarkers(s.take(k as int));
            proof {
                assert(s.take(k as int + 1) =~= s.take(k as int).push(s[k as int]));
                lemma_nonmarkers_push(s.take(k as int), s[k as int]);
                lemma_lit_push(tg, s[k as int], ev, dv, is_packed);
                lemma_nonmarkers_prefix(s, k as int + 1);
                lemma_nonmarkers_len(s);
                assert(s[k as int] == fields@[k as int]@);
            }
            let f = &fields[k];
            let is_marker = match f.bitfield_width {
                Some(w) => w == 0,
                None => false,
            };
            if !is_marker {
                let ghost tg1 = nonmarkers(s.take(k as int + 1));
                proof {
                    assert(tg1 == tg.push(s[k as int]));
                    assert(tg1.len() == t as int + 1);
                    assert(nonmarkers(s).take(t as int + 1) == tg1);
                    assert(nonmarkers(s)[t as int] == tg1[t as int]);
                    assert(nonmarkers(s)[t as int] == s[k as int]);
                }
                let use_inner = is_packed && f.is_aligned_struct;
                if t < field_exprs.len() {
                    let e = &field_exprs[t];
                    proof {
                        assert(ev[t as int] == field_exprs@[t as int]@);
                        lemma_stmts_view(e.stmts@);
                    }
                    if !e.is_pure() {
                        proof {
                            assert(!target_ok(nonmarkers(s)[t as int], t as int, ev, dv));
                            assert(!literal_ok(nonmarkers(s), ev, dv));
                        }
                        return Err(TranslationError::ImpureFieldExpression);
                    }
                    is_unsafe = is_unsafe || e.is_unsafe;
                    let raw = clone_expr(&e.val);
                    let v = if use_inner {
                        Expr::FieldAccessIdx { base: Box::new(raw), idx: 0 }
                    } else {
                        raw
                    };
                    let is_bf = match f.bitfield_width {
                        Some(_) => true,
                        None => false,
                    };
                    if is_bf {
                        let pair = (f.name.clone(), v);
                        proof {
                            assert(bfpairs_view(bf_inits@.push(pair)) =~= bfpairs_view(
                                bf_inits@,
                            ).push((pair.0@, pair.1@)));
                        }
                        bf_inits.push(pair);
                    } else {
                        let entry = FieldVal { name: f.name.clone(), expr: v };
                        proof {
                            lemma_fieldvals_view(rvals@);
                            lemma_fieldvals_view(rvals@.push(entry));
                            assert(fieldvals_view(rvals@.push(entry)) =~= fieldvals_view(
                                rvals@,
                            ).push(entry@));
                        }
                        rvals.push(entry);
                    }
                } else {
                    let is_bf = match f.bitfield_width {
                        Some(_) => true,
                        None => false,
                    };
                    if !is_bf {
                        proof {
                            assert(f@.ctype < dv.len());
                            assert(dv[f@.ctype as int] == defaults@[f@.ctype as int]@);
                        }
                        let d = &defaults[f.ctype as usize];
                        proof {
                            lemma_stmts_view(d.stmts@);
                        }
                        if !d.is_pure() {
                            proof {
                                assert(!target_ok(nonmarkers(s)[t as int], t as int, ev, dv));
                                assert(!literal_ok(nonmarkers(s), ev, dv));
                            }
                            return Err(TranslationError::ImpureFieldExpression);
                        }
                        is_unsafe = is_unsafe || d.is_unsafe;
                        let raw = clone_expr(&d.val);
                        let v = if use_inner {
                            Expr::FieldAccessIdx { base: Box::new(raw), idx: 0 }
                        } else {
                            raw
                        };
                        let entry = FieldVal { name: f.name.clone(), expr: v };
                        proof {
                            lemma_fieldvals_view(rvals@);
                            lemma_fieldvals_view(rvals@.push(entry));
                            assert(fieldvals_view(rvals@.push(entry)) =~= fieldvals_view(
                                rvals@,
                            ).push(entry@));
                        }
                        rvals.push(entry);
                    }
                }
                proof {
                    assert forall|q: int| 0 <= q < tg1.len() implies target_ok(
                        #[trigger] tg1[q],
                        q,
                        ev,
                        dv,
                    ) by {
                        if q < tg.len() {
                            assert(tg1[q] == tg[q]);
                        } else {
                            assert(tg1[q] == s[k as int]);
                        }
                    }
                }
                t = t + 1;
            }
            k = k + 1;
        }
        proof {
            assert(s.take(k as int) =~= s);
        }
        // Assemble the block: the temporary, the deferred setters, the value.
        let mut all_vals = vals;
        let ghost old_zf = all_vals@;
        let ghost old_rv = rvals@;
        let ghost zf = fieldvals_view(old_zf);
        let ghost rv = fieldvals_view(old_rv);
        let mut rvals_moved = rvals;
        all_vals.append(&mut rvals_moved);
        proof {
            lemma_fieldvals_view(old_zf);
            lemma_fieldvals_view(old_rv);
            lemma_fieldvals_view(all_vals@);
            assert(all_vals@ == old_zf + old_rv);
            assert(fieldvals_view(all_vals@) =~= zf + rv) by {
                assert forall|q: int| 0 <= q < all_vals@.len() implies fieldvals_view(
                    all_vals@,
                )[q] == (zf + rv)[q] by {
                    if q < old_zf.len() {
                        assert(all_vals@[q] == old_zf[q]);
                    } else {
                        assert(all_vals@[q] == old_rv[q - old_zf.len()]);
                    }
                }
            }
        }
        let struct_expr = Expr::StructLit { name: record.name.clone(), fields: all_vals };
        let mut stmts: Vec<Stmt> = Vec::new();
        let local_stmt = Stmt::Local { name: String::from_str("init"), init: struct_expr };
        proof {
            lemma_stmts_view(stmts@.push(local_stmt));
            assert(stmts_view(stmts@.push(local_stmt)) =~= stmts_view(stmts@).push(
                crate::ast::stmt_view(local_stmt),
            ));
            assert(stmts_view(stmts@) =~= Seq::<StmtV>::empty());
        }
        stmts.push(local_stmt);
        let ghost local_v = stmts_view(stmts@)[0];
        let ghost bfp = bfpairs_view(bf_inits@);
        let mut m: usize = 0;
        let n_bf = bf_inits.len();
        proof {
            assert(bfp.len() == n_bf as int);
        }
        while m < bf_inits.len()
            invariant
                0 <= m <= bf_inits@.len(),
                bfp == bfpairs_view(bf_inits@),
                bfp.len() == bf_inits@.len(),
                stmts_view(stmts@) == seq![local_v] + setter_stmts(bfp).take(m as int),
            decreases bf_inits@.len() - m,
        {
            proof {
                assert(bfp[m as int] == (bf_inits@[m as int].0@, bf_inits@[m as int].1@));
            }
            let pair_name = &bf_inits[m].0;
            let mut setter = String::from_str("set_");
            setter.append(pair_name.as_str());
            let arg = clone_expr(&bf_inits[m].1);
            let ghost arg_v = arg@;
            let args_vec = vec![arg];
            proof {
                assert(args_vec@.len() == 1);
                lemma_exprs_view(args_vec@);
                assert(exprs_view(args_vec@) =~= seq![arg_v]);
            }
            let call = Expr::MethodCall {
                receiver: Box::new(Expr::Ident(String::from_str("init"))),
                method: setter,
                args: args_vec,
            };
            let stmt = Stmt::Expr(call);
            proof {
                assert(crate::ast::stmt_view(stmt) =~= setter_stmts(bfp)[m as int]);
                lemma_stmts_view(stmts@);
                lemma_stmts_view(stmts@.push(stmt));
                assert(stmts_view(stmts@.push(stmt)) =~= stmts_view(stmts@).push(
                    crate::ast::stmt_view(stmt),
                ));
                assert((seq![local_v] + setter_stmts(bfp).take(m as int)).push(
                    setter_stmts(bfp)[m as int],
                ) =~= seq![local_v] + setter_stmts(bfp).take(m as int + 1));
            }
            stmts.push(stmt);
            m = m + 1;
        }
        proof {
            assert(setter_stmts(bfp).take(m as int) =~= setter_stmts(bfp));
        }
        let tail = Stmt::Expr(Expr::Ident(String::from_str("init")));
        proof {
            lemma_stmts_view(stmts@);
            lemma_stmts_view(stmts@.push(tail));
            assert(stmts_view(stmts@.push(tail)) =~= stmts_view(stmts@).push(
                crate::ast::stmt_view(tail),
            ));
        }
        stmts.push(tail);
        let result = WithStmts {
            stmts: Vec::new(),
            val: Expr::Block { stmts },
            is_unsafe,
        };
        proof {
            assert(stmts_view(result.stmts@) =~= Seq::<StmtV>::empty());
            assert((seq![local_v] + setter_stmts(bfp)).push(crate::ast::stmt_view(tail))
                =~= seq![local_v] + setter_stmts(bfp) + seq![StmtV::Expr(ExprV::Ident("init"@))]);
        }
        Ok(result)
    }
}

/// The non-assigning operator of a compound-assignment operator, and nothing
/// for every other operator.
pub open spec fn non_assign_form(op: BinOp) -> Option<BinOp> {
    match op {
        BinOp::AssignAdd => Some(BinOp::Add),
        BinOp::AssignSubtract => Some(BinOp::Subtract),
        BinOp::AssignMultiply => Some(BinOp::Multiply),
        BinOp::AssignDivide => Some(BinOp::Divide),
        BinOp::AssignModulus => Some(BinOp::Modulus),
        BinOp::AssignBitXor => Some(BinOp::BitXor),
        BinOp::AssignShiftLeft => Some(BinOp::ShiftLeft),
        BinOp::AssignShiftRight => Some(BinOp::ShiftRight),
        BinOp::AssignBitOr => Some(BinOp::BitOr),
        BinOp::AssignBitAnd => Some(BinOp::BitAnd),
        _ => None,
    }
}

pub open spec fn is_assign_op(op: BinOp) -> bool {
    op == BinOp::Assign || non_assign_form(op) is Some
}

/// The computed right-hand operand of the rewritten assignment: the supplied
/// expression alone for a plain assignment, the current value read through the
/// getter combined with it for a compound one.
pub open spec fn rewrite_operand(op: BinOp, getter: ExprV, rhs: ExprV) -> ExprV {
    if op == BinOp::Assign {
        rhs
    } else {
        ExprV::Binary {
            op: non_assign_form(op)->0,
            left: Box::new(getter),
            right: Box::new(rhs),
        }
    }
}

/// What the rewriter returns: the getter call as the expression's value
/// (after the setter ran, reading it yields the assigned value), preceded by
/// statements that call the setter exactly once — splicing a block-valued
/// operand, binding an operand that contains a block to a fresh temporary, or
/// passing the operand inline.
pub open spec fn rewrite_spec(
    names: Seq<(u64, Seq<char>)>,
    op: BinOp,
    lhs: ExprV,
    rhs: ExprV,
    field_id: u64,
    tmp: Seq<char>,
) -> Result<WithStmtsV, TranslationError> {
    match spec_resolve(names, field_id) {
        None => Err(TranslationError::FieldNameLookupFailure),
        Some(fname) => {
            if !is_assign_op(op) {
                Err(TranslationError::UnsupportedOperator)
            } else {
                let getter = ExprV::MethodCall {
                    receiver: Box::new(lhs),
                    method: "get_"@ + fname,
                    args: Seq::empty(),
                };
                let setter = "set_"@ + fname;
                let operand = rewrite_operand(op, getter, rhs);
                match operand {
                    ExprV::Block { stmts } => {
                        if stmts.len() == 0 {
                            Err(TranslationError::UnreachableShapeViolation)
                        } else {
                            match stmts[stmts.len() - 1] {
                                StmtV::Expr(e) => Ok(
                                    WithStmtsV {
                                        stmts: stmts.subrange(0, stmts.len() - 1).push(
                                            StmtV::Expr(
                                                ExprV::MethodCall {
                                                    receiver: Box::new(lhs),
                                                    method: setter,
                                                    args: seq![e],
                                                },
                                            ),
                                        ),
                                        val: getter,
                                        is_unsafe: false,
                                    },
                                ),
                                _ => Err(TranslationError::UnreachableShapeViolation),
                            }
                        }
                    },
                    _ => {
                        if spec_contains_block(operand) {
                            Ok(
                                WithStmtsV {
                                    stmts: seq![
                                        StmtV::Local { name: tmp, init: operand },
                                        StmtV::Semi(
                                            ExprV::MethodCall {
                                                receiver: Box::new(lhs),
                                                method: setter,
                                                args: seq![ExprV::Ident(tmp)],
                                            },
                                        ),
                                    ],
                                    val: getter,
                                    is_unsafe: false,
                                },
                            )
                        } else {
                            Ok(
                                WithStmtsV {
                                    stmts: seq![
                                        StmtV::Expr(
                                            ExprV::MethodCall {
                                                receiver: Box::new(lhs),
                                                method: setter,
                                                args: seq![operand],
                                            },
                                        ),
                                    ],
                                    val: getter,
                                    is_unsafe: false,
                                },
                            )
                        }
                    },
                }
            }
        },
    }
}

impl Translation {
    /// Rewrites `lhs.field <op>= rhs` for a bit-field into accessor calls:
    /// the setter receives the computed operand — spliced, bound to the fresh
    /// temporary, or inline, depending on whether the operand is or contains
    /// a block — and the whole expression's value is the field read back
    /// through its getter.
    #[verifier::rlimit(60)]
    pub fn convert_bitfield_assignment_op_with_rhs(
        &self,
        op: BinOp,
        lhs: &Expr,
        rhs_expr: Expr,
        field_id: u64,
        tmp_name: &str,
    ) -> (r: Result<WithStmts, TranslationError>)
        ensures
            ({
                let spec_r = rewrite_spec(self@, op, lhs@, rhs_expr@, field_id, tmp_name@);
                match r {
                    Ok(w) => spec_r == Ok::<WithStmtsV, TranslationError>(w@),
                    Err(e) => spec_r == Err::<WithStmtsV, TranslationError>(e),
                }
            }),
    {
        let field_name = match self.resolve_field_name(field_id) {
            None => {
                return Err(TranslationError::FieldNameLookupFailure);
            },
            Some(n) => n,
        };
        let ghost rhs_v = rhs_expr@;
        let mut getter_name = String::from_str("get_");
        getter_name.append(field_name.as_str());
        let mut setter_name = String::from_str("set_");
        setter_name.append(field_name.as_str());
        let getter_args: Vec<Expr> = Vec::new();
        proof {
            assert(exprs_view(getter_args@) =~= Seq::<ExprV>::empty());
        }
        let val = Expr::MethodCall {
            receiver: Box::new(clone_expr(lhs)),
            method: getter_name.clone(),
            args: getter_args,
        };
        let ghost getter_v = val@;
        let param_expr: Expr;
        match op {
            BinOp::Assign => {
                param_expr = rhs_expr;
            },
            _ => {
                let bop = match op {
                    BinOp::AssignAdd => BinOp::Add,
                    BinOp::AssignSubtract => BinOp::Subtract,
                    BinOp::AssignMultiply => BinOp::Multiply,
                    BinOp::AssignDivide => BinOp::Divide,
                    BinOp::AssignModulus => BinOp::Modulus,
                    BinOp::AssignBitXor => BinOp::BitXor,
                    BinOp::AssignShiftLeft => BinOp::ShiftLeft,
                    BinOp::AssignShiftRight => BinOp::ShiftRight,
                    BinOp::AssignBitOr => BinOp::BitOr,
                    BinOp::AssignBitAnd => BinOp::BitAnd,
                    _ => {
                        return Err(TranslationError::UnsupportedOperator);
                    },
                };
                let getter_args2: Vec<Expr> = Vec::new();
                proof {
                    assert(exprs_view(getter_args2@) =~= Seq::<ExprV>::empty());
                }
                let getter_again = Expr::MethodCall {
                    receiver: Box::new(clone_expr(lhs)),
                    method: getter_name,
                    args: getter_args2,
                };
                proof {
                    assert(non_assign_form(op) == Some(bop));
                    assert(getter_again@ =~= getter_v);
                }
                param_expr = Expr::Binary {
                    op: bop,
                    left: Box::new(getter_again),
                    right: Box::new(rhs_expr),
                };
            },
        }
        proof {
            assert(param_expr@ =~= rewrite_operand(op, getter_v, rhs_v));
        }
        let ghost operand_v = param_expr@;
        match param_expr {
            Expr::Block { stmts } => {
                let mut stmts = stmts;
                proof {
                    lemma_stmts_view(stmts@);
                }
                if stmts.len() == 0 {
                    return Err(TranslationError::UnreachableShapeViolation);
                }
                let ghost old_stmts = stmts@;
                let last = match stmts.pop() {
                    Some(st) => st,
                    None => {
                        return Err(TranslationError::UnreachableShapeViolation);
                    },
                };
                proof {
                    lemma_stmts_view(stmts@);
                    assert(stmts@ == old_stmts.subrange(0, old_stmts.len() - 1));
                    assert(stmts_view(old_stmts)[old_stmts.len() - 1] == crate::ast::stmt_view(
                        last,
                    ));
                    assert(stmts_view(stmts@) =~= stmts_view(old_stmts).subrange(
                        0,
                        old_stmts.len() - 1,
                    ));
                }
                match last {
                    Stmt::Expr(e) => {
                        let ghost e_v = e@;
                        let args_vec = vec![e];
                        proof {
                            lemma_exprs_view(args_vec@);
                            assert(exprs_view(args_vec@) =~= seq![e_v]);
                        }
                        let call = Expr::MethodCall {
                            receiver: Box::new(clone_expr(lhs)),
                            method: setter_name,
                            args: args_vec,
                        };
                        let new_stmt = Stmt::Expr(call);
                        proof {
                            lemma_stmts_view(stmts@.push(new_stmt));
                            lemma_stmts_view(stmts@);
                            assert(stmts_view(stmts@.push(new_stmt)) =~= stmts_view(stmts@).push(
                                crate::ast::stmt_view(new_stmt),
                            ));
                        }
                        stmts.push(new_stmt);
                        let result = WithStmts { stmts, val, is_unsafe: false };
                        proof {
                            assert(result@ =~= rewrite_spec(
                                self@,
                                op,
                                lhs@,
                                rhs_v,
                                field_id,
                                tmp_name@,
                            )->Ok_0);
                        }
                        Ok(result)
                    },
                    _ => Err(TranslationError::UnreachableShapeViolation),
                }
            },
            other => {
                let mut out_stmts: Vec<Stmt> = Vec::new();
                proof {
                    assert(stmts_view(out_stmts@) =~= Seq::<StmtV>::empty());
                }
                if contains_block(&other) {
                    let local = Stmt::Local { name: String::from_str(tmp_name), init: other };
                    let ghost tmp_ident_v = ExprV::Ident(tmp_name@);
                    let args_vec = vec![Expr::Ident(String::from_str(tmp_name))];
                    proof {
                        lemma_exprs_view(args_vec@);
                        assert(exprs_view(args_vec@) =~= seq![tmp_ident_v]);
                    }
                    let call = Expr::MethodCall {
                        receiver: Box::new(clone_expr(lhs)),
                        method: setter_name,
                        args: args_vec,
                    };
                    proof {
                        lemma_stmts_view(out_stmts@.push(local));
                    }
                    out_stmts.push(local);
                    let semi = Stmt::Semi(call);
                    proof {
                        lemma_stmts_view(out_stmts@);
                        lemma_stmts_view(out_stmts@.push(semi));
                        assert(stmts_view(out_stmts@.push(semi)) =~= stmts_view(out_stmts@).push(
                            crate::ast::stmt_view(semi),
                        ));
                    }
                    out_stmts.push(semi);
                    let result = WithStmts { stmts: out_stmts, val, is_unsafe: false };
                    proof {
                        assert(stmts_view(result.stmts@) =~= seq![
                            StmtV::Local { name: tmp_name@, init: operand_v },
                            StmtV::Semi(
                                ExprV::MethodCall {
                                    receiver: Box::new(lhs@),
                                    method: "set_"@ + field_name@,
                                    args: seq![ExprV::Ident(tmp_name@)],
                                },
                            ),
                        ]);
                        assert(result@ =~= rewrite_spec(
                            self@,
                            op,
                            lhs@,
                            rhs_v,
                            field_id,
                            tmp_name@,
                        )->Ok_0);
                    }
                    Ok(result)
                } else {
                    let ghost other_v = other@;
                    let args_vec = vec![other];
                    proof {
                        lemma_exprs_view(args_vec@);
                        assert(exprs_view(args_vec@) =~= seq![other_v]);
                    }
                    let call = Expr::MethodCall {
                        receiver: Box::new(clone_expr(lhs)),
                        method: setter_name,
                        args: args_vec,
                    };
                    let stmt = Stmt::Expr(call);
                    proof {
                        lemma_stmts_view(out_stmts@.push(stmt));
                        assert(stmts_view(out_stmts@.push(stmt)) =~= stmts_view(out_stmts@).push(
                            crate::ast::stmt_view(stmt),
                        ));
                    }
                    out_stmts.push(stmt);
                    let result = WithStmts { stmts: out_stmts, val, is_unsafe: false };
                    proof {
                        assert(result@ =~= rewrite_spec(
                            self@,
                            op,
                            lhs@,
                            rhs_v,
                            field_id,
                            tmp_name@,
                        )->Ok_0);
                    }
                    Ok(result)
                }
            },
        }
    }
}

} // verus!
