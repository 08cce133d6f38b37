//! Field descriptors and the reorganized field plan: a single pass over an
//! ordered field list groups consecutive bit-fields that share bytes, turns
//! byte gaps into padding, and leaves ordinary fields alone.  The pass is
//! specified by a small state machine (`class_step` / `class_run`) whose
//! result, [`plan_of`], is what the executable classifier is proved to return.
use vstd::prelude::*;

verus! {

use vstd::arithmetic::div_mod::lemma_div_is_ordered;

/// One source structure field, together with the answers of the surrounding
/// services that the reorganizer consults for it: the target name and type
/// text, the element-type handle used to look up default values, and, for a
/// field whose own type is an aligned record, the name of its layout-compatible
/// inner representation and the identifier standing for that type's trailing
/// padding.
#[derive(Debug, Clone, PartialEq, Eq)]
pub struct FieldDescriptor {
    pub name: String,
    pub ty: String,
    /// `None` for an ordinary field, `Some(0)` for a zero-width marker,
    /// `Some(n)` with `n > 0` for a bit-field of width `n`.
    pub bitfield_width: Option<u64>,
    /// Bit offset of the field from the start of the structure.
    pub platform_bit_offset: u64,
    /// Total bit width of the field's declared element type.
    pub platform_type_bitwidth: u64,
    /// Element-type handle, the key into the implicit-default-value service.
    pub ctype: u64,
    /// Whether the field's own type is an aligned record type.
    pub is_aligned_struct: bool,
    pub inner_type_name: String,
    pub padding_ident: String,
}

#[verifier::ext_equal]
pub ghost struct FieldDescV {
    pub name: Seq<char>,
    pub ty: Seq<char>,
    pub bitfield_width: Option<u64>,
    pub platform_bit_offset: u64,
    pub platform_type_bitwidth: u64,
    pub ctype: u64,
    pub is_aligned_struct: bool,
    pub inner_type_name: Seq<char>,
    pub padding_ident: Seq<char>,
}

impl View for FieldDescriptor {
    type V = FieldDescV;

    open spec fn view(&self) -> FieldDescV {
        FieldDescV {
            name: self.name@,
            ty: self.ty@,
            bitfield_width: self.bitfield_width,
            platform_bit_offset: self.platform_bit_offset,
            platform_type_bitwidth: self.platform_type_bitwidth,
            ctype: self.ctype,
            is_aligned_struct: self.is_aligned_struct,
            inner_type_name: self.inner_type_name@,
            padding_ident: self.padding_ident@,
        }
    }
}

pub open spec fn fdescs_view(s: Seq<FieldDescriptor>) -> Seq<FieldDescV> {
    Seq::new(s.len(), |i: int| s[i]@)
}

/// Accessor metadata for one bit-field of a group: the bit range is relative
/// to the group's starting bit and inclusive at both ends.
#[derive(Debug, Clone, PartialEq, Eq)]
pub struct BitfieldAttr {
    pub name: String,
    pub ty: String,
    pub bit_start: u64,
    pub bit_end: u64,
}

#[verifier::ext_equal]
pub ghost struct AttrV {
    pub name: Seq<char>,
    pub ty: Seq<char>,
    pub bit_start: u64,
    pub bit_end: u64,
}

impl View for BitfieldAttr {
    type V = AttrV;

    open spec fn view(&self) -> AttrV {
        AttrV {
            name: self.name@,
            ty: self.ty@,
            bit_start: self.bit_start,
            bit_end: self.bit_end,
        }
    }
}

pub open spec fn attrs_view(s: Seq<BitfieldAttr>) -> Seq<AttrV> {
    Seq::new(s.len(), |i: int| s[i]@)
}

/// One node of the reorganized field plan.
#[derive(Debug, PartialEq, Eq)]
pub enum FieldType {
    /// A maximal run of byte-sharing bit-fields, stored as one byte array.
    BitfieldGroup {
        start_bit: u64,
        field_name: String,
        bytes: u64,
        attrs: Vec<BitfieldAttr>,
    },
    /// Non-semantic filler of a known byte count.
    Padding { bytes: u64 },
    /// Non-semantic filler whose byte count is the named identifier, resolved
    /// by the target's type system.
    ComputedPadding { ident: String },
    /// An ordinary field, with `use_inner_type` marking that the target must
    /// embed the type's layout-compatible inner representation.
    Regular {
        name: String,
        ty: String,
        ctype: u64,
        bytes: u64,
        use_inner_type: bool,
    },
}

#[verifier::ext_equal]
pub ghost enum FieldTypeV {
    BitfieldGroup { start_bit: u64, field_name: Seq<char>, bytes: u64, attrs: Seq<AttrV> },
    Padding { bytes: u64 },
    ComputedPadding { ident: Seq<char> },
    Regular { name: Seq<char>, ty: Seq<char>, ctype: u64, bytes: u64, use_inner_type: bool },
}

impl View for FieldType {
    type V = FieldTypeV;

    open spec fn view(&self) -> FieldTypeV {
        match self {
            FieldType::BitfieldGroup { start_bit, field_name, bytes, attrs } => {
                FieldTypeV::BitfieldGroup {
                    start_bit: *start_bit,
                    field_name: field_name@,
                    bytes: *bytes,
                    attrs: attrs_view(attrs@),
                }
            },
            FieldType::Padding { bytes } => FieldTypeV::Padding { bytes: *bytes },
            FieldType::ComputedPadding { ident } => FieldTypeV::ComputedPadding { ident: ident@ },
            FieldType::Regular { name, ty, ctype, bytes, use_inner_type } => FieldTypeV::Regular {
                name: name@,
                ty: ty@,
                ctype: *ctype,
                bytes: *bytes,
                use_inner_type: *use_inner_type,
            },
        }
    }
}

pub open spec fn ftypes_view(s: Seq<FieldType>) -> Seq<FieldTypeV> {
    Seq::new(s.len(), |i: int| s[i]@)
}

/// The number of bits a field occupies in the source layout: its bit width for
/// a bit-field (zero for a marker), its type's bit width otherwise.
pub open spec fn eff_len(f: FieldDescV) -> int {
    match f.bitfield_width {
        Some(w) => w as int,
        None => f.platform_type_bitwidth as int,
    }
}

/// Per-field well-formedness: offsets and widths fit the machine word, and an
/// ordinary field begins and ends on a byte boundary.
pub open spec fn field_wf(f: FieldDescV) -> bool {
    &&& f.platform_bit_offset + eff_len(f) <= u64::MAX
    &&& f.bitfield_width is None ==> f.platform_bit_offset as int % 8 == 0
        && f.platform_type_bitwidth as int % 8 == 0
}

/// Well-formedness of a whole field list: every field is well formed and the
/// fields appear in declaration order without overlapping bit ranges.
pub open spec fn fields_wf(s: Seq<FieldDescV>) -> bool {
    &&& forall|i: int| 0 <= i < s.len() ==> field_wf(#[trigger] s[i])
    &&& forall|i: int|
        0 <= i < s.len() - 1 ==> (#[trigger] s[i + 1].platform_bit_offset) as int
            >= s[i].platform_bit_offset + eff_len(s[i])
}

/// The source language places the field that follows a zero-width marker at a
/// byte boundary; a few facts about the plan rest on that.
pub open spec fn fields_marker_aligned(s: Seq<FieldDescV>) -> bool {
    forall|i: int|
        0 <= i < s.len() - 1 && s[i].bitfield_width == Some(0u64) ==> (#[trigger] s[i
            + 1].platform_bit_offset) as int % 8 == 0
}

/// Instantiates the declaration-order condition of [`fields_wf`] at one pair
/// of adjacent fields.
pub proof fn lemma_wf_adjacent(s: Seq<FieldDescV>, i: int)
    requires
        fields_wf(s),
        0 <= i < s.len() - 1,
    ensures
        s[i + 1].platform_bit_offset as int >= s[i].platform_bit_offset + eff_len(s[i]),
        field_wf(s[i]),
        field_wf(s[i + 1]),
{
}

/// Instantiates [`fields_marker_aligned`] at one pair of adjacent fields.
pub proof fn lemma_marker_adjacent(s: Seq<FieldDescV>, i: int)
    requires
        fields_marker_aligned(s),
        0 <= i < s.len() - 1,
        s[i].bitfield_width == Some(0u64),
    ensures
        s[i + 1].platform_bit_offset as int % 8 == 0,
{
}

/// The bit-field group being accumulated while the classifier walks a run of
/// contiguous bit-fields.
#[verifier::ext_equal]
pub ghost struct GroupAcc {
    pub start_bit: u64,
    pub name: Seq<char>,
    /// Highest byte index touched by any member so far.
    pub last_byte: u64,
    pub attrs: Seq<AttrV>,
}

/// The classifier's running state: the plan emitted so far, the open group if
/// one is being accumulated, and the first byte not yet accounted for.
#[verifier::ext_equal]
pub ghost struct ClassState {
    pub plan: Seq<FieldTypeV>,
    pub open: Option<GroupAcc>,
    pub next_byte_pos: u64,
}

pub open spec fn init_state() -> ClassState {
    ClassState { plan: Seq::empty(), open: None, next_byte_pos: 0 }
}

/// The plan node a finished group becomes: its byte count is the number of
/// distinct bytes its members touch, which for a contiguous run is the span
/// from its first to its last byte.
pub open spec fn group_node(g: GroupAcc) -> FieldTypeV {
    FieldTypeV::BitfieldGroup {
        start_bit: g.start_bit,
        field_name: g.name,
        bytes: (g.last_byte as int - g.start_bit as int / 8 + 1) as u64,
        attrs: g.attrs,
    }
}

/// Closes the open group, if any, by pushing its node onto the plan.
pub open spec fn flush(st: ClassState) -> ClassState {
    match st.open {
        None => st,
        Some(g) => ClassState {
            plan: st.plan.push(group_node(g)),
            open: None,
            next_byte_pos: st.next_byte_pos,
        },
    }
}

/// One classifier transition, for one field.
pub open spec fn class_step(st: ClassState, f: FieldDescV, is_packed: bool) -> ClassState {
    let off = f.platform_bit_offset as int;
    match f.bitfield_width {
        Some(w) => if w == 0 {
            // A zero-width marker closes the open group and is otherwise
            // invisible: it owns no storage and does not advance the byte
            // position.
            flush(st)
        } else {
            let last_new = (off + w - 1) / 8;
            let st1 = if off / 8 > st.next_byte_pos {
                // A byte-level gap before a bit-field closes the open group
                // and becomes explicit padding.
                let stf = flush(st);
                ClassState {
                    plan: stf.plan.push(
                        FieldTypeV::Padding { bytes: (off / 8 - stf.next_byte_pos) as u64 },
                    ),
                    open: None,
                    next_byte_pos: stf.next_byte_pos,
                }
            } else {
                st
            };
            let open1 = match st1.open {
                None => GroupAcc {
                    start_bit: f.platform_bit_offset,
                    name: f.name,
                    last_byte: last_new as u64,
                    attrs: seq![
                        AttrV { name: f.name, ty: f.ty, bit_start: 0, bit_end: (w - 1) as u64 },
                    ],
                },
                Some(g) => GroupAcc {
                    start_bit: g.start_bit,
                    name: g.name + "_"@ + f.name,
                    last_byte: if last_new > g.last_byte {
                        last_new as u64
                    } else {
                        g.last_byte
                    },
                    attrs: g.attrs.push(
                        AttrV {
                            name: f.name,
                            ty: f.ty,
                            bit_start: (off - g.start_bit) as u64,
                            bit_end: (off - g.start_bit + w - 1) as u64,
                        },
                    ),
                },
            };
            ClassState {
                plan: st1.plan,
                open: Some(open1),
                next_byte_pos: (last_new + 1) as u64,
            }
        },
        None => {
            // An ordinary field closes the open group; a byte gap before it
            // becomes padding; inside a packed record a field of an aligned
            // record type is embedded through its inner representation,
            // followed by a padding member of that type's trailing-padding
            // count.
            let stf = flush(st);
            let st1 = if off / 8 > stf.next_byte_pos {
                ClassState {
                    plan: stf.plan.push(
                        FieldTypeV::Padding { bytes: (off / 8 - stf.next_byte_pos) as u64 },
                    ),
                    open: None,
                    next_byte_pos: stf.next_byte_pos,
                }
            } else {
                stf
            };
            let use_inner = is_packed && f.is_aligned_struct;
            let node = FieldTypeV::Regular {
                name: f.name,
                ty: if use_inner {
                    f.inner_type_name
                } else {
                    f.ty
                },
                ctype: f.ctype,
                bytes: (f.platform_type_bitwidth as int / 8) as u64,
                use_inner_type: use_inner,
            };
            let plan1 = if use_inner {
                st1.plan.push(node).push(FieldTypeV::ComputedPadding { ident: f.padding_ident })
            } else {
                st1.plan.push(node)
            };
            ClassState {
                plan: plan1,
                open: None,
                next_byte_pos: ((off + f.platform_type_bitwidth) / 8) as u64,
            }
        },
    }
}

/// Runs the classifier over a field list, front to back.
pub open spec fn class_run(st: ClassState, s: Seq<FieldDescV>, is_packed: bool) -> ClassState
    decreases s.len(),
{
    if s.len() == 0 {
        st
    } else {
        class_run(class_step(st, s[0], is_packed), s.subrange(1, s.len() as int), is_packed)
    }
}

/// After the last field: the open group is closed, and any shortfall against
/// the declared total size becomes trailing padding.  A packed layout may
/// already fill or exceed the declared size, in which case nothing is added.
pub open spec fn finalize_plan(st: ClassState, total_bytes: u64) -> Seq<FieldTypeV> {
    let stf = flush(st);
    if total_bytes > stf.next_byte_pos {
        stf.plan.push(
            FieldTypeV::Padding { bytes: (total_bytes - stf.next_byte_pos) as u64 },
        )
    } else {
        stf.plan
    }
}

/// The reorganized plan of a field list: what the classifier returns.
pub open spec fn plan_of(s: Seq<FieldDescV>, total_bytes: u64, is_packed: bool) -> Seq<
    FieldTypeV,
> {
    finalize_plan(class_run(init_state(), s, is_packed), total_bytes)
}

/// The first byte past the storage the fields themselves account for.
pub open spec fn natural_fill(s: Seq<FieldDescV>, is_packed: bool) -> int {
    class_run(init_state(), s, is_packed).next_byte_pos as int
}

/// Running the classifier over a list extended by one field is one more step.
pub proof fn lemma_class_run_snoc(
    st: ClassState,
    s: Seq<FieldDescV>,
    f: FieldDescV,
    is_packed: bool,
)
    ensures
        class_run(st, s.push(f), is_packed) == class_step(
            class_run(st, s, is_packed),
            f,
            is_packed,
        ),
    decreases s.len(),
{
    if s.len() == 0 {
        assert(s.push(f)[0] == f);
        assert(s.push(f).subrange(1, 1) =~= Seq::<FieldDescV>::empty());
        assert(class_run(st, s.push(f), is_packed) == class_run(
            class_step(st, f, is_packed),
            Seq::empty(),
            is_packed,
        ));
        assert(class_run(st, s, is_packed) == st);
    } else {
        assert(s.push(f)[0] == s[0]);
        assert(s.push(f).subrange(1, s.len() as int + 1) =~= s.subrange(1, s.len() as int).push(f));
        lemma_class_run_snoc(class_step(st, s[0], is_packed), s.subrange(1, s.len() as int), f, is_packed);
        assert(class_run(st, s.push(f), is_packed) == class_run(
            class_step(st, s[0], is_packed),
            s.subrange(1, s.len() as int).push(f),
            is_packed,
        ));
        assert(class_run(st, s, is_packed) == class_run(
            class_step(st, s[0], is_packed),
            s.subrange(1, s.len() as int),
            is_packed,
        ));
    }
}

/// The byte size a plan node contributes: a computed padding member's symbolic
/// count is excluded, since only the target's type system resolves it.
pub open spec fn node_size(n: FieldTypeV) -> int {
    match n {
        FieldTypeV::BitfieldGroup { bytes, .. } => bytes as int,
        FieldTypeV::Padding { bytes } => bytes as int,
        FieldTypeV::ComputedPadding { .. } => 0,
        FieldTypeV::Regular { bytes, .. } => bytes as int,
    }
}

/// The sum of the byte sizes of a plan's nodes.
pub open spec fn plan_sum(s: Seq<FieldTypeV>) -> int
    decreases s.len(),
{
    if s.len() == 0 {
        0
    } else {
        plan_sum(s.subrange(0, s.len() - 1)) + node_size(s[s.len() - 1])
    }
}

pub proof fn lemma_plan_sum_push(s: Seq<FieldTypeV>, n: FieldTypeV)
    ensures
        plan_sum(s.push(n)) == plan_sum(s) + node_size(n),
{
    assert(s.push(n).subrange(0, s.len() as int) =~= s);
}

/// The bytes the open group stands for but has not yet pushed onto the plan.
pub open spec fn open_bytes(o: Option<GroupAcc>) -> int {
    match o {
        None => 0,
        Some(g) => g.last_byte as int - g.start_bit as int / 8 + 1,
    }
}

/// The classifier invariant carried through [`class_run`], tying the state to
/// the prefix of fields already processed.  While a group is open, the last
/// field processed is the bit-field that extended it; while none is, the next
/// byte position sits at or just past the last field's end.
pub open spec fn basic_inv(prefix: Seq<FieldDescV>, st: ClassState) -> bool {
    match st.open {
        Some(g) => {
            let fp = prefix.last();
            &&& prefix.len() > 0
            &&& fp.bitfield_width is Some
            &&& fp.bitfield_width->0 > 0
            &&& g.last_byte as int == (fp.platform_bit_offset + fp.bitfield_width->0 - 1) as int
                / 8
            &&& st.next_byte_pos as int == g.last_byte + 1
            &&& g.start_bit <= fp.platform_bit_offset
            &&& g.start_bit as int / 8 <= g.last_byte
            &&& g.attrs.len() >= 1
        },
        None => {
            let fp = prefix.last();
            ||| st.next_byte_pos == 0
            ||| (prefix.len() > 0 && {
                ||| (fp.bitfield_width == Some(0u64) && 8 * st.next_byte_pos as int
                    <= fp.platform_bit_offset + 7)
                ||| 8 * st.next_byte_pos as int <= fp.platform_bit_offset + eff_len(fp)
            })
        },
    }
}

/// The running size account: the plan's nodes plus the open group cover
/// exactly the bytes below the next byte position.
pub open spec fn sum_inv(st: ClassState) -> bool {
    plan_sum(st.plan) + open_bytes(st.open) == st.next_byte_pos as int
}

/// The classifier keeps [`basic_inv`] over every well-formed prefix.
pub proof fn lemma_run_basic(s: Seq<FieldDescV>, is_packed: bool, i: int)
    requires
        fields_wf(s),
        0 <= i <= s.len(),
    ensures
        basic_inv(s.take(i), class_run(init_state(), s.take(i), is_packed)),
    decreases i,
{
    if i > 0 {
        lemma_run_basic(s, is_packed, i - 1);
        let prev = s.take(i - 1);
        let f = s[i - 1];
        let st = class_run(init_state(), prev, is_packed);
        assert(s.take(i) =~= prev.push(f));
        lemma_class_run_snoc(init_state(), prev, f, is_packed);
        let off = f.platform_bit_offset as int;
        assert(field_wf(f));
        if prev.len() > 0 {
            assert(prev[prev.len() - 1] == s[i - 2]);
            lemma_wf_adjacent(s, i - 2);
        }
        match f.bitfield_width {
            Some(w) => {
                if w == 0 {
                    // Flushing keeps the byte position; the marker becomes the
                    // last field, and the position stays within a byte of its
                    // offset.
                    if st.open is Some {
                        let fp = prev.last();
                        let e = fp.platform_bit_offset + fp.bitfield_width->0;
                        assert(off >= e);
                        assert(8 * st.next_byte_pos as int <= e + 7) by {
                            vstd::arithmetic::div_mod::lemma_fundamental_div_mod(e - 1, 8);
                        }
                    }
                } else {
                    let last_new = (off + w - 1) / 8;
                    lemma_div_is_ordered(off, off + w - 1, 8);
                    if st.open is Some && !(off / 8 > st.next_byte_pos) {
                        let g = st.open->0;
                        let fp = prev.last();
                        let e = fp.platform_bit_offset + fp.bitfield_width->0;
                        assert(off >= e);
                        assert(last_new >= g.last_byte as int) by {
                            lemma_div_is_ordered(e - 1, off + w - 1, 8);
                        }
                        lemma_div_is_ordered(g.start_bit as int, off, 8);
                    }
                }
            },
            None => {
                // The next byte position lands exactly at the field's end,
                // which is on a byte boundary.
                let tw = f.platform_type_bitwidth as int;
                assert(8 * ((off + tw) / 8) <= off + tw) by {
                    vstd::arithmetic::div_mod::lemma_fundamental_div_mod(off + tw, 8);
                }
            },
        }
    }
}

/// The classifier keeps [`sum_inv`] over every well-formed, marker-aligned
/// prefix.
pub proof fn lemma_run_sum(s: Seq<FieldDescV>, is_packed: bool, i: int)
    requires
        fields_wf(s),
        fields_marker_aligned(s),
        0 <= i <= s.len(),
    ensures
        sum_inv(class_run(init_state(), s.take(i), is_packed)),
    decreases i,
{
    if i == 0 {
        assert(s.take(0) =~= Seq::<FieldDescV>::empty());
    } else {
        lemma_run_sum(s, is_packed, i - 1);
        lemma_run_basic(s, is_packed, i - 1);
        let prev = s.take(i - 1);
        let f = s[i - 1];
        let st = class_run(init_state(), prev, is_packed);
        assert(s.take(i) =~= prev.push(f));
        lemma_class_run_snoc(init_state(), prev, f, is_packed);
        let off = f.platform_bit_offset as int;
        assert(field_wf(f));
        if prev.len() > 0 {
            assert(prev[prev.len() - 1] == s[i - 2]);
            lemma_wf_adjacent(s, i - 2);
        }
        // The byte position the next storage-owning field starts at is never
        // below the account, so a field with no gap starts exactly at it.
        let nbp = st.next_byte_pos as int;
        match f.bitfield_width {
            Some(w) => {
                if w == 0 {
                    match st.open {
                        None => {},
                        Some(g) => {
                            lemma_plan_sum_push(st.plan, group_node(g));
                        },
                    }
                } else {
                    let last_new = (off + w - 1) / 8;
                    lemma_div_is_ordered(off, off + w - 1, 8);
                    if off / 8 > nbp {
                        let stf = flush(st);
                        match st.open {
                            None => {},
                            Some(g) => {
                                lemma_plan_sum_push(st.plan, group_node(g));
                            },
                        }
                        lemma_plan_sum_push(
                            stf.plan,
                            FieldTypeV::Padding { bytes: (off / 8 - nbp) as u64 },
                        );
                    } else {
                        match st.open {
                            None => {
                                lemma_gapless_at_boundary(s, i, st, is_packed);
                                assert(off / 8 == nbp);
                            },
                            Some(g) => {},
                        }
                    }
                }
            },
            None => {
                let stf = flush(st);
                match st.open {
                    None => {},
                    Some(g) => {
                        lemma_plan_sum_push(st.plan, group_node(g));
                    },
                }
                let st1 = if off / 8 > nbp {
                    ClassState {
                        plan: stf.plan.push(FieldTypeV::Padding { bytes: (off / 8 - nbp) as u64 }),
                        open: None,
                        next_byte_pos: stf.next_byte_pos,
                    }
                } else {
                    stf
                };
                if off / 8 > nbp {
                    lemma_plan_sum_push(stf.plan, FieldTypeV::Padding { bytes: (off / 8 - nbp) as u64 });
                } else {
                    lemma_gapless_at_boundary(s, i, st, is_packed);
                    assert(off / 8 == nbp);
                }
                assert(plan_sum(st1.plan) == off / 8);
                let use_inner = is_packed && f.is_aligned_struct;
                let node = FieldTypeV::Regular {
                    name: f.name,
                    ty: if use_inner { f.inner_type_name } else { f.ty },
                    ctype: f.ctype,
                    bytes: (f.platform_type_bitwidth as int / 8) as u64,
                    use_inner_type: use_inner,
                };
                lemma_plan_sum_push(st1.plan, node);
                if use_inner {
                    lemma_plan_sum_push(
                        st1.plan.push(node),
                        FieldTypeV::ComputedPadding { ident: f.padding_ident },
                    );
                }
                // With both ends on byte boundaries, the field's byte count
                // adds up exactly to its end position.
                assert(off % 8 == 0 && f.platform_type_bitwidth as int % 8 == 0);
                assert((off + f.platform_type_bitwidth) / 8 == off / 8
                    + f.platform_type_bitwidth as int / 8) by {
                    let tw = f.platform_type_bitwidth as int;
                    vstd::arithmetic::div_mod::lemma_fundamental_div_mod(off, 8);
                    vstd::arithmetic::div_mod::lemma_fundamental_div_mod(tw, 8);
                    vstd::arithmetic::div_mod::lemma_fundamental_div_mod_converse(
                        off + tw,
                        8,
                        off / 8 + tw / 8,
                        0,
                    );
                }
            },
        }
    }
}

/// Where the next field owns storage, shows no byte gap, and either no group
/// is open or the field is an ordinary one, that field starts exactly at the
/// next byte position.
pub proof fn lemma_gapless_at_boundary(
    s: Seq<FieldDescV>,
    i: int,
    st: ClassState,
    is_packed: bool,
)
    requires
        fields_wf(s),
        fields_marker_aligned(s),
        1 <= i <= s.len(),
        st == class_run(init_state(), s.take(i - 1), is_packed),
        ({
            let f = s[i - 1];
            let off = f.platform_bit_offset as int;
            &&& !(off / 8 > st.next_byte_pos)
            &&& match st.open {
                None => f.bitfield_width is None || f.bitfield_width->0 > 0,
                Some(_) => f.bitfield_width is None,
            }
        }),
    ensures
        s[i - 1].platform_bit_offset as int / 8 == st.next_byte_pos as int,
{
    lemma_run_basic(s, is_packed, i - 1);
    let prev = s.take(i - 1);
    let f = s[i - 1];
    let off = f.platform_bit_offset as int;
    let nbp = st.next_byte_pos as int;
    match st.open {
        None => {
            if nbp == 0 {
                lemma_div_is_ordered(0, off, 8);
            } else {
                let fp = prev.last();
                assert(prev[prev.len() - 1] == s[i - 2]);
                lemma_wf_adjacent(s, i - 2);
                assert(off >= fp.platform_bit_offset + eff_len(fp));
                if fp.bitfield_width == Some(0u64) && 8 * nbp <= fp.platform_bit_offset + 7 {
                    // The field after a marker sits on a byte boundary at or
                    // past the marker, hence at or past every byte the account
                    // has reached.
                    lemma_marker_adjacent(s, i - 2);
                    assert(off % 8 == 0);
                    assert(off / 8 >= nbp) by {
                        vstd::arithmetic::div_mod::lemma_fundamental_div_mod(off, 8);
                        assert(off == 8 * (off / 8));
                        assert(8 * nbp <= 8 * (off / 8) + 7);
                    }
                } else {
                    assert(8 * nbp <= fp.platform_bit_offset + eff_len(fp));
                    assert(off >= 8 * nbp);
                    assert(off / 8 >= nbp) by {
                        lemma_div_is_ordered(8 * nbp, off, 8);
                        assert((8 * nbp) / 8 == nbp) by {
                            vstd::arithmetic::div_mod::lemma_fundamental_div_mod_converse(
                                8 * nbp,
                                8,
                                nbp,
                                0,
                            );
                        }
                    }
                }
            }
        },
        Some(g) => {
            // An ordinary field behind an open group: it sits on a byte
            // boundary at or past the last bit-field's end, hence at or past
            // the byte after the group's last byte.
            let fp = prev.last();
            assert(prev[prev.len() - 1] == s[i - 2]);
            lemma_wf_adjacent(s, i - 2);
            let e = fp.platform_bit_offset + fp.bitfield_width->0;
            assert(off >= e);
            assert(off % 8 == 0);
            assert(nbp == (e - 1) / 8 + 1);
            assert(off / 8 >= nbp) by {
                vstd::arithmetic::div_mod::lemma_fundamental_div_mod(off, 8);
                vstd::arithmetic::div_mod::lemma_fundamental_div_mod(e - 1, 8);
                assert(off == 8 * (off / 8));
                assert(8 * ((e - 1) / 8) <= e - 1);
                assert(8 * (off / 8) > 8 * ((e - 1) / 8));
                assert(off / 8 > (e - 1) / 8);
            }
        },
    }
}

} // verus!
