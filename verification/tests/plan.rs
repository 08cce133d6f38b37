use bitfields::fields::{BitfieldAttr, FieldDescriptor, FieldType};
use bitfields::structs::{MemberDecl, Translation};

fn field(
    name: &str,
    ty: &str,
    width: Option<u64>,
    bit_offset: u64,
    type_bitwidth: u64,
    ctype: u64,
) -> FieldDescriptor {
    FieldDescriptor {
        name: name.to_string(),
        ty: ty.to_string(),
        bitfield_width: width,
        platform_bit_offset: bit_offset,
        platform_type_bitwidth: type_bitwidth,
        ctype,
        is_aligned_struct: false,
        inner_type_name: String::new(),
        padding_ident: String::new(),
    }
}

fn tr() -> Translation {
    Translation { field_names: Vec::new() }
}

fn pad_names(n: usize) -> Vec<String> {
    (0..n).map(|i| format!("pad_{}", i)).collect()
}

#[test]
fn plan_regular_then_group_then_padding() {
    // A 4-byte ordinary field, a 3-bit and a 5-bit bit-field sharing one
    // byte, and 3 bytes of trailing padding up to the declared 8 bytes.
    let fields = vec![
        field("a", "u32", None, 0, 32, 0),
        field("b", "u8", Some(3), 32, 8, 1),
        field("c", "u8", Some(5), 35, 8, 1),
    ];
    let plan = tr().get_field_types(&fields, 8, false);
    assert_eq!(
        plan,
        vec![
            FieldType::Regular {
                name: "a".to_string(),
                ty: "u32".to_string(),
                ctype: 0,
                bytes: 4,
                use_inner_type: false,
            },
            FieldType::BitfieldGroup {
                start_bit: 32,
                field_name: "b_c".to_string(),
                bytes: 1,
                attrs: vec![
                    BitfieldAttr {
                        name: "b".to_string(),
                        ty: "u8".to_string(),
                        bit_start: 0,
                        bit_end: 2,
                    },
                    BitfieldAttr {
                        name: "c".to_string(),
                        ty: "u8".to_string(),
                        bit_start: 3,
                        bit_end: 7,
                    },
                ],
            },
            FieldType::Padding { bytes: 3 },
        ]
    );
}

#[test]
fn plan_group_bytes_count_shared_byte_once() {
    // Two bit-fields spanning bytes 0 and 1; byte 0 is shared and counted
    // once.
    let fields = vec![
        field("x", "u16", Some(4), 0, 16, 0),
        field("y", "u16", Some(6), 4, 16, 0),
    ];
    let plan = tr().get_field_types(&fields, 2, false);
    assert_eq!(plan.len(), 1);
    match &plan[0] {
        FieldType::BitfieldGroup { start_bit, field_name, bytes, attrs } => {
            assert_eq!(*start_bit, 0);
            assert_eq!(field_name, "x_y");
            assert_eq!(*bytes, 2);
            assert_eq!(attrs.len(), 2);
            assert_eq!((attrs[1].bit_start, attrs[1].bit_end), (4, 9));
        }
        other => panic!("expected a bit-field group, got {:?}", other),
    }
}

#[test]
fn plan_zero_width_marker_closes_group() {
    // A zero-width marker between two bit-fields closes the first group; the
    // second bit-field starts a new one at the next byte.
    let fields = vec![
        field("a", "u8", Some(3), 0, 8, 0),
        field("", "u8", Some(0), 3, 8, 0),
        field("b", "u8", Some(4), 8, 8, 0),
    ];
    let plan = tr().get_field_types(&fields, 2, false);
    assert_eq!(plan.len(), 2);
    match (&plan[0], &plan[1]) {
        (
            FieldType::BitfieldGroup { field_name: n0, bytes: b0, .. },
            FieldType::BitfieldGroup { field_name: n1, bytes: b1, start_bit, .. },
        ) => {
            assert_eq!((n0.as_str(), *b0), ("a", 1));
            assert_eq!((n1.as_str(), *b1, *start_bit), ("b", 1, 8));
        }
        other => panic!("expected two groups, got {:?}", other),
    }
}

#[test]
fn plan_gap_before_bitfield_becomes_padding() {
    // A byte-level gap before a bit-field closes the group and becomes an
    // explicit padding node.
    let fields = vec![
        field("a", "u8", Some(2), 0, 8, 0),
        field("b", "u8", Some(2), 16, 8, 0),
    ];
    let plan = tr().get_field_types(&fields, 3, false);
    assert_eq!(plan.len(), 3);
    assert!(matches!(plan[0], FieldType::BitfieldGroup { bytes: 1, .. }));
    assert!(matches!(plan[1], FieldType::Padding { bytes: 1 }));
    assert!(matches!(plan[2], FieldType::BitfieldGroup { start_bit: 16, bytes: 1, .. }));
}

#[test]
fn plan_packed_aligned_field_uses_inner_type() {
    // Inside a packed record, a field of an aligned record type is embedded
    // through its inner representation plus a computed padding member.
    let fields = vec![FieldDescriptor {
        name: "sub".to_string(),
        ty: "Sub".to_string(),
        bitfield_width: None,
        platform_bit_offset: 0,
        platform_type_bitwidth: 32,
        ctype: 0,
        is_aligned_struct: true,
        inner_type_name: "Sub_Inner".to_string(),
        padding_ident: "SUB_PADDING".to_string(),
    }];
    let plan = tr().get_field_types(&fields, 4, true);
    assert_eq!(
        plan,
        vec![
            FieldType::Regular {
                name: "sub".to_string(),
                ty: "Sub_Inner".to_string(),
                ctype: 0,
                bytes: 4,
                use_inner_type: true,
            },
            FieldType::ComputedPadding { ident: "SUB_PADDING".to_string() },
        ]
    );
}

#[test]
fn plan_packed_shorter_than_fill_adds_no_padding() {
    // A packed layout whose declared size does not exceed the natural fill
    // gets no trailing padding.
    let fields = vec![
        field("a", "u8", Some(7), 0, 8, 0),
        field("b", "u8", Some(7), 7, 8, 0),
    ];
    let plan = tr().get_field_types(&fields, 2, true);
    assert_eq!(plan.len(), 1);
    assert!(matches!(plan[0], FieldType::BitfieldGroup { bytes: 2, .. }));
}

#[test]
fn member_decls_draw_padding_names_in_order() {
    let fields = vec![
        field("a", "u8", Some(2), 0, 8, 0),
        field("b", "u8", Some(2), 16, 8, 0),
    ];
    let names = pad_names(2 * fields.len() + 1);
    let members = tr().convert_struct_fields(&fields, 4, false, &names);
    assert_eq!(members.len(), 4);
    match &members[1] {
        MemberDecl::PaddingArray { name, bytes } => {
            assert_eq!((name.as_str(), *bytes), ("pad_0", 1));
        }
        other => panic!("expected padding, got {:?}", other),
    }
    match &members[3] {
        MemberDecl::PaddingArray { name, bytes } => {
            assert_eq!((name.as_str(), *bytes), ("pad_1", 1));
        }
        other => panic!("expected padding, got {:?}", other),
    }
    match &members[0] {
        MemberDecl::BitfieldArray { name, bytes, attrs } => {
            assert_eq!((name.as_str(), *bytes, attrs.len()), ("a", 1, 1));
        }
        other => panic!("expected a bit-field array, got {:?}", other),
    }
}

#[test]
fn group_attrs_cover_group_bytes_without_duplication() {
    // The union of the accessor bit ranges, mapped to absolute bytes, covers
    // exactly the group's bytes, and the two groups claim disjoint bytes.
    let fields = vec![
        field("p", "u16", Some(4), 0, 16, 0),
        field("q", "u16", Some(9), 4, 16, 0),
        field("r", "u8", Some(2), 24, 8, 0),
    ];
    let plan = tr().get_field_types(&fields, 4, false);
    let mut group_spans: Vec<(u64, u64)> = Vec::new();
    for node in &plan {
        if let FieldType::BitfieldGroup { start_bit, bytes, attrs, .. } = node {
            let lo = start_bit / 8;
            let hi = lo + bytes - 1;
            for b in lo..=hi {
                assert!(
                    attrs.iter().any(|a| {
                        (start_bit + a.bit_start) / 8 <= b && b <= (start_bit + a.bit_end) / 8
                    }),
                    "byte {} of group at bit {} not covered",
                    b,
                    start_bit
                );
            }
            for a in attrs {
                assert!(lo <= (start_bit + a.bit_start) / 8);
                assert!((start_bit + a.bit_end) / 8 <= hi);
            }
            group_spans.push((lo, hi));
        }
    }
    assert_eq!(group_spans.len(), 2);
    assert!(group_spans[0].1 < group_spans[1].0);
}

#[test]
fn zero_width_marker_is_transparent_at_a_group_boundary() {
    // Inserting a marker where the group would close anyway (before an
    // ordinary field) leaves the plan unchanged.
    let without = vec![
        field("a", "u8", Some(3), 0, 8, 0),
        field("n", "u32", None, 32, 32, 0),
    ];
    let with_marker = vec![
        field("a", "u8", Some(3), 0, 8, 0),
        field("", "u8", Some(0), 3, 8, 0),
        field("n", "u32", None, 32, 32, 0),
    ];
    assert_eq!(
        tr().get_field_types(&without, 8, false),
        tr().get_field_types(&with_marker, 8, false)
    );
}

#[test]
fn size_conservation_on_example() {
    // The emitted sizes add up to the declared byte size.
    let fields = vec![
        field("a", "u32", None, 0, 32, 0),
        field("b", "u8", Some(3), 32, 8, 1),
        field("c", "u8", Some(5), 35, 8, 1),
    ];
    let plan = tr().get_field_types(&fields, 8, false);
    let total: u64 = plan
        .iter()
        .map(|n| match n {
            FieldType::BitfieldGroup { bytes, .. } => *bytes,
            FieldType::Padding { bytes } => *bytes,
            FieldType::ComputedPadding { .. } => 0,
            FieldType::Regular { bytes, .. } => *bytes,
        })
        .sum();
    assert_eq!(total, 8);
}
