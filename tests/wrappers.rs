use raytrace::pdf::MixturePdf;
use raytrace::transform::{flip_normals, FlipFace, FlipNormals};
use raytrace::vulkan::QueueFamilyIndices;

#[test]
fn queue_families_start_incomplete() {
    let q = QueueFamilyIndices::new();
    assert_eq!(q.graphics_family, -1);
    assert_eq!(q.present_family, -1);
    assert!(!q.is_complete());
}

#[test]
fn queue_families_complete_when_both_found() {
    let mut q = QueueFamilyIndices::new();
    q.graphics_family = 0;
    assert!(!q.is_complete());
    q.present_family = 2;
    assert!(q.is_complete());
}

#[test]
fn flip_wrappers_hold_their_object() {
    let f = FlipNormals::new(7u32);
    assert_eq!(*f.inner(), 7);
    assert_eq!(*flip_normals("x").inner(), "x");
    let g = FlipFace::new(3i64);
    assert_eq!(*g.inner(), 3);
}

#[test]
fn flip_face_reverses_front_face() {
    let g = FlipFace::new(());
    assert!(!g.front_face(true));
    assert!(g.front_face(false));
}

#[test]
fn mixture_holds_both_components() {
    let m = MixturePdf::new(1u8, "two");
    assert_eq!(*m.first(), 1);
    assert_eq!(*m.second(), "two");
}
