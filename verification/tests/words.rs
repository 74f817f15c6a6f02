use cdpt::epoch::Color;
use cdpt::man_ptr::{ManPtr, PtrMeta};
use cdpt::obj_meta::{AtomicObjMeta, ObjMeta};

// ---- ObjMeta tests ----

#[test]
fn obj_meta_new_and_accessors() {
    let meta = ObjMeta::new(Color::C0, 0);
    assert_eq!(meta.marked(), Color::C0);
    assert_eq!(meta.root_count(), 0);

    let meta = ObjMeta::new(Color::C1, 5);
    assert_eq!(meta.marked(), Color::C1);
    assert_eq!(meta.root_count(), 5);
}

#[test]
fn obj_meta_with_marked() {
    let meta = ObjMeta::new(Color::C0, 10);
    let flipped = meta.with_marked(Color::C1);
    assert_eq!(flipped.marked(), Color::C1);
    assert_eq!(flipped.root_count(), 10);
}

#[test]
fn obj_meta_default() {
    let meta = ObjMeta::default();
    assert_eq!(meta.marked(), Color::C0);
    assert_eq!(meta.root_count(), 0);
}

// ---- AtomicObjMeta tests ----

#[test]
fn atomic_obj_meta_load() {
    let ameta = AtomicObjMeta::new(Color::C1, 3);
    let loaded = ameta.load();
    assert_eq!(loaded.marked(), Color::C1);
    assert_eq!(loaded.root_count(), 3);
}

#[test]
fn atomic_obj_meta_increment_root_count() {
    let mut ameta = AtomicObjMeta::new(Color::C0, 1);
    let prev = ameta.increment_root_count();
    assert_eq!(prev, 1);
    assert_eq!(ameta.load().root_count(), 2);
}

#[test]
fn atomic_obj_meta_decrement_root_count() {
    let mut ameta = AtomicObjMeta::new(Color::C0, 3);
    let prev = ameta.decrement_root_count();
    assert_eq!(prev, 3);
    assert_eq!(ameta.load().root_count(), 2);
}

#[test]
fn atomic_obj_meta_increment_preserves_color() {
    let mut ameta = AtomicObjMeta::new(Color::C1, 5);
    ameta.increment_root_count();
    let loaded = ameta.load();
    assert_eq!(loaded.marked(), Color::C1);
    assert_eq!(loaded.root_count(), 6);
}

// ---- PtrMeta tests ----

#[test]
fn ptr_meta_equality() {
    assert_eq!(PtrMeta::Rooted, PtrMeta::Rooted);
    assert_eq!(PtrMeta::Unrooted(Color::C0), PtrMeta::Unrooted(Color::C0));
    assert_eq!(PtrMeta::Unrooted(Color::C1), PtrMeta::Unrooted(Color::C1));
    assert_ne!(PtrMeta::Rooted, PtrMeta::Unrooted(Color::C0));
    assert_ne!(PtrMeta::Unrooted(Color::C0), PtrMeta::Unrooted(Color::C1));
}

// ---- ManPtr tests ----

#[test]
fn man_ptr_null_base_is_null() {
    let ptr = ManPtr::<()>::null_base();
    assert!(ptr.is_null());
}

#[test]
fn man_ptr_null_rooted() {
    let ptr = ManPtr::<()>::null_rooted();
    assert!(ptr.is_null());
    assert_eq!(ptr.meta(), PtrMeta::Rooted);
}

#[test]
fn man_ptr_null_rooted_with_tag() {
    let ptr = ManPtr::<()>::null_rooted_with_tag(1);
    assert!(ptr.is_null());
    assert_eq!(ptr.meta(), PtrMeta::Rooted);
    assert_eq!(ptr.tag(), 1);
}

#[test]
fn man_ptr_meta_roundtrip() {
    let base = ManPtr::<()>::null_base();

    let rooted = base.with_meta(PtrMeta::Rooted);
    assert_eq!(rooted.meta(), PtrMeta::Rooted);

    let c0 = base.with_meta(PtrMeta::Unrooted(Color::C0));
    assert_eq!(c0.meta(), PtrMeta::Unrooted(Color::C0));

    let c1 = base.with_meta(PtrMeta::Unrooted(Color::C1));
    assert_eq!(c1.meta(), PtrMeta::Unrooted(Color::C1));
}

#[test]
fn man_ptr_without_meta() {
    let base = ManPtr::<()>::null_base();
    let rooted = base.with_meta(PtrMeta::Rooted);
    let cleared = rooted.without_meta();
    // After clearing meta bits (setting top 2 bits to 0), the encoding is
    // 0b00 which is `PtrMeta::Rooted`.
    assert_eq!(cleared.meta(), PtrMeta::Rooted);
}

#[test]
fn man_ptr_tag_roundtrip() {
    let ptr = ManPtr::<()>::null_rooted();
    assert_eq!(ptr.tag(), 0);

    // Tag bits are limited to the low bits of the alignment.
    // For ManObj<()>, the alignment determines available tag bits.
    let tagged = ptr.with_tag(1);
    assert_eq!(tagged.tag(), 1);
}

#[test]
fn man_ptr_tag_preserves_meta() {
    let ptr = ManPtr::<()>::null_rooted();
    let tagged = ptr.with_tag(1);
    assert_eq!(tagged.meta(), PtrMeta::Rooted);
}

#[test]
fn man_ptr_equality() {
    let a = ManPtr::<()>::null_base();
    let b = ManPtr::<()>::null_base();
    assert!(a == b);

    // Rooted meta is 0b00, same as null_base(), so they are equal.
    let c = a.with_meta(PtrMeta::Rooted);
    assert!(a == c);

    // Unrooted meta is nonzero, so they differ.
    let d = a.with_meta(PtrMeta::Unrooted(Color::C0));
    assert!(a != d);
}

#[test]
fn man_ptr_clone_copy() {
    let ptr = ManPtr::<()>::null_rooted();
    #[allow(clippy::clone_on_copy)]
    let cloned = ptr.clone();
    assert!(ptr == cloned);

    let copied = ptr;
    assert!(ptr == copied);
}

#[test]
fn obj_meta_word_layout() {
    let meta = ObjMeta::new_with_type_id(Color::C1, 5, 0xab);
    assert_eq!(meta.0, (1 << 63) | (0xab << 55) | 5);
    assert_eq!(meta.type_id(), 0xab);
    assert_eq!(meta.marked(), Color::C1);
    assert_eq!(meta.root_count(), 5);
    assert_eq!(meta.with_marked(Color::C0).type_id(), 0xab);
}

#[test]
fn atomic_obj_meta_mark_keeps_the_rest() {
    let mut ameta = AtomicObjMeta::from(ObjMeta::new_with_type_id(Color::C0, 7, 3));
    ameta.mark(Color::C1);
    assert_eq!(ameta.load().marked(), Color::C1);
    assert_eq!(ameta.load().root_count(), 7);
    assert_eq!(ameta.load().type_id(), 3);
}

#[test]
fn man_ptr_fields_are_independent() {
    let ptr = ManPtr::<()>::from(0x1_6000_0000);
    let full = ptr.with_tag(5).with_meta(PtrMeta::Unrooted(Color::C1));
    assert_eq!(full.as_ptr(), 0x1_6000_0000);
    assert_eq!(full.tag(), 5);
    assert_eq!(full.meta(), PtrMeta::Unrooted(Color::C1));
    assert_eq!(full.data, 0xc000_0000_0000_0000 | 0x1_6000_0000 | 5);
    assert!(full.without_meta() == ptr.with_tag(5));
    // Only the low bits of a tag are kept.
    assert_eq!(ptr.with_tag(13).tag(), 5);
}

#[test]
fn tags_fit_below_the_alignment() {
    // A header of eight bytes, whatever the item.
    assert_eq!(ManPtr::<()>::low_bits(), 7);
    assert_eq!(ManPtr::<u8>::null_rooted().with_tag(8).tag(), 0);
    assert_eq!(ManPtr::<u8>::null_rooted().with_tag(15).tag(), 7);
    // An item of a larger alignment leaves more room.
    let bits = std::mem::align_of::<u128>() as u64 - 1;
    assert_eq!(ManPtr::<u128>::low_bits(), bits);
    assert_eq!(ManPtr::<u128>::null_rooted().with_tag(8).tag(), 8 & bits);
    assert_eq!(ManPtr::<u128>::null_rooted_with_tag(31).tag(), 31 & bits);
    // A pointer that is given the tag it has stays as it is.
    let ptr = ManPtr::<u128>::from(0x6000_0000).with_tag(5);
    assert!(ptr.with_tag(ptr.tag()) == ptr);
    assert_eq!(ptr.as_ptr(), 0x6000_0000);
}

#[test]
fn addresses_are_all_above_the_tag() {
    let ptr = ManPtr::<u8>::from(0x1000);
    assert_eq!(ptr.as_ptr(), 0x1000);
    assert_eq!(ptr.tag(), 0);
    assert!(!ptr.is_null());
    let ptr = ManPtr::<u8>::from(0x100f);
    assert_eq!(ptr.as_ptr(), 0x1008);
    assert_eq!(ptr.tag(), 7);
    let ptr = ManPtr::<u8>::from(0xffff_ffff_ffff_ffff);
    assert_eq!(ptr.as_ptr(), 0x3fff_ffff_ffff_fff8);
    assert_eq!(ptr.without_meta().data, 0x3fff_ffff_ffff_ffff);
}
