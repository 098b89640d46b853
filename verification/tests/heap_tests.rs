use french_press::binding::UniqueBinding;
use french_press::gc_error::GcError;
use french_press::heap::{AllocBox, Color};
use french_press::js_types::{JsObjStruct, JsPtrEnum, JsStrStruct};

fn make_str(text: &str) -> (JsPtrEnum, UniqueBinding) {
    (
        JsPtrEnum::JsStr(JsStrStruct { text: text.to_string() }),
        UniqueBinding::mangle(text.to_string()),
    )
}

fn make_obj(children: Vec<UniqueBinding>, name: &str) -> (JsPtrEnum, UniqueBinding) {
    (
        JsPtrEnum::JsObj(JsObjStruct { children }),
        UniqueBinding::mangle(name.to_string()),
    )
}

fn str_of(ptr: &JsPtrEnum) -> String {
    match ptr {
        JsPtrEnum::JsStr(JsStrStruct { ref text }) => text.clone(),
        _ => unreachable!(),
    }
}

#[test]
fn test_len() {
    let mut ab = AllocBox::new();
    assert!(ab.is_empty());
    let (ptr, _) = make_str("");
    assert!(ab.allocate(UniqueBinding::anon(), ptr).is_ok());
    assert_eq!(ab.len(), 1);
}

#[test]
fn test_alloc() {
    let mut ab = AllocBox::new();
    let (x_ptr, x_bnd) = make_str("x");
    let (y_ptr, y_bnd) = make_str("y");
    assert!(ab.allocate(x_bnd, x_ptr.clone()).is_ok());
    assert!(ab.allocate(y_bnd, y_ptr).is_ok());
}

#[test]
fn test_alloc_fail() {
    let mut ab = AllocBox::new();
    let (x_ptr, mangle) = make_str("x");
    let mangle2 = mangle.clone();
    assert!(ab.allocate(mangle, x_ptr.clone()).is_ok());
    let res = ab.allocate(mangle2.clone(), x_ptr);
    assert!(res.is_err());
    assert!(matches!(res, Err(GcError::Alloc(_))));
    if let Err(GcError::Alloc(bnd)) = res {
        assert_eq!(mangle2, bnd);
    }
}

#[test]
fn test_update_ptr() {
    let mut ab = AllocBox::new();
    let (x_ptr, mangle) = make_str("x");
    assert!(ab.allocate(mangle.clone(), x_ptr.clone()).is_ok());
    let (new_ptr, _) = make_str("y");
    assert!(ab.update_ptr(&mangle, new_ptr).is_ok());
    let opt_ptr = ab.find_id(&mangle);
    assert!(opt_ptr.is_some());
    if let Some(ptr) = opt_ptr {
        assert_eq!(str_of(ptr), "y".to_string());
    } else {
        unreachable!()
    }
}

#[test]
fn test_update_ptr_fail() {
    let mut ab = AllocBox::new();
    let (ptr, _) = make_str("");
    let res = ab.update_ptr(&UniqueBinding::anon(), ptr);
    assert!(res.is_err());
    assert!(matches!(res, Err(GcError::HeapUpdate)));
}

#[test]
fn test_mark_roots() {
    let mut ab = AllocBox::new();
    let (x_ptr, x_bnd) = make_str("x");
    let (y_ptr, y_bnd) = make_str("y");

    ab.allocate(x_bnd.clone(), x_ptr).unwrap();
    ab.allocate(y_bnd.clone(), y_ptr).unwrap();

    let marks = vec![x_bnd.clone(), y_bnd.clone()];

    ab.mark_roots(&marks);
    assert!(matches!(ab.color_of(&x_bnd), Some(Color::Black)));
    assert!(matches!(ab.color_of(&y_bnd), Some(Color::Black)));
}

#[test]
fn test_mark_sweep_leaf_survival() {
    let mut ab = AllocBox::new();
    let (x_ptr, x_bnd) = make_str("hello");
    let (y_ptr, y_bnd) = make_str("world");
    ab.allocate(x_bnd.clone(), x_ptr).unwrap();
    ab.allocate(y_bnd.clone(), y_ptr).unwrap();

    ab.mark_roots(&vec![x_bnd.clone()]);
    ab.mark_ptrs();
    ab.sweep_ptrs();

    let found = ab.find_id(&x_bnd);
    assert!(found.is_some());
    assert_eq!(str_of(found.unwrap()), "hello".to_string());
    assert!(ab.find_id(&y_bnd).is_none());
    assert_eq!(ab.len(), 1);
}

#[test]
fn test_mark_sweep_object_children() {
    let mut ab = AllocBox::new();
    let (c_ptr, c_bnd) = make_str("child");
    let (o_ptr, o_bnd) = make_obj(vec![c_bnd.clone()], "o");
    ab.allocate(o_bnd.clone(), o_ptr).unwrap();
    ab.allocate(c_bnd.clone(), c_ptr).unwrap();

    ab.mark_roots(&vec![o_bnd.clone()]);
    assert!(matches!(ab.color_of(&o_bnd), Some(Color::Black)));
    assert!(matches!(ab.color_of(&c_bnd), Some(Color::Grey)));

    ab.mark_ptrs();
    assert!(matches!(ab.color_of(&c_bnd), Some(Color::Black)));

    ab.sweep_ptrs();
    assert!(ab.find_id(&o_bnd).is_some());
    assert!(ab.find_id(&c_bnd).is_some());
    assert!(matches!(ab.color_of(&o_bnd), Some(Color::White)));
    assert!(matches!(ab.color_of(&c_bnd), Some(Color::White)));
    assert_eq!(ab.len(), 2);
}

#[test]
fn test_mark_sweep_cycle() {
    let mut ab = AllocBox::new();
    let a_bnd = UniqueBinding::mangle("a".to_string());
    let b_bnd = UniqueBinding::mangle("b".to_string());
    let a_ptr = JsPtrEnum::JsObj(JsObjStruct { children: vec![b_bnd.clone()] });
    let b_ptr = JsPtrEnum::JsObj(JsObjStruct { children: vec![a_bnd.clone()] });
    ab.allocate(a_bnd.clone(), a_ptr).unwrap();
    ab.allocate(b_bnd.clone(), b_ptr).unwrap();

    ab.mark_roots(&vec![a_bnd.clone()]);
    ab.mark_ptrs();
    ab.mark_ptrs();
    ab.sweep_ptrs();
    assert!(ab.find_id(&a_bnd).is_some());
    assert!(ab.find_id(&b_bnd).is_some());
    assert_eq!(ab.len(), 2);

    // An unrooted cycle is collected whole on the next pass.
    ab.mark_roots(&vec![]);
    ab.mark_ptrs();
    ab.sweep_ptrs();
    assert!(ab.is_empty());
}

#[test]
fn test_alloc_conflict_size_unchanged() {
    let mut ab = AllocBox::new();
    let (x_ptr, x_bnd) = make_str("x");
    assert!(ab.allocate(x_bnd.clone(), x_ptr.clone()).is_ok());
    let res = ab.allocate(x_bnd.clone(), x_ptr);
    match res {
        Err(GcError::Alloc(bnd)) => assert_eq!(bnd, x_bnd),
        _ => unreachable!(),
    }
    assert_eq!(ab.len(), 1);
}

#[test]
fn test_update_then_lookup() {
    let mut ab = AllocBox::new();
    let (x_ptr, x_bnd) = make_str("x");
    ab.allocate(x_bnd.clone(), x_ptr).unwrap();
    let (new_ptr, _) = make_str("newValue");
    assert!(ab.update_ptr(&x_bnd, new_ptr).is_ok());
    assert_eq!(str_of(ab.find_id(&x_bnd).unwrap()), "newValue".to_string());
    let (v_ptr, unknown) = make_str("v");
    assert!(matches!(ab.update_ptr(&unknown, v_ptr), Err(GcError::HeapUpdate)));
}

#[test]
fn test_update_keeps_color() {
    let mut ab = AllocBox::new();
    let (x_ptr, x_bnd) = make_str("x");
    ab.allocate(x_bnd.clone(), x_ptr).unwrap();
    ab.mark_roots(&vec![x_bnd.clone()]);
    assert!(matches!(ab.color_of(&x_bnd), Some(Color::Black)));
    let (new_ptr, _) = make_str("y");
    assert!(ab.update_ptr(&x_bnd, new_ptr).is_ok());
    assert!(matches!(ab.color_of(&x_bnd), Some(Color::Black)));
}

#[test]
fn test_mark_roots_idempotent_on_black() {
    let mut ab = AllocBox::new();
    let (x_ptr, x_bnd) = make_str("x");
    ab.allocate(x_bnd.clone(), x_ptr).unwrap();
    ab.mark_roots(&vec![x_bnd.clone()]);
    assert!(matches!(ab.color_of(&x_bnd), Some(Color::Black)));
    ab.mark_roots(&vec![x_bnd.clone()]);
    assert!(matches!(ab.color_of(&x_bnd), Some(Color::Black)));
    ab.sweep_ptrs();
    assert!(ab.find_id(&x_bnd).is_some());
    assert_eq!(ab.len(), 1);
}

#[test]
fn test_mark_step_on_empty_grey_is_noop() {
    let mut ab = AllocBox::new();
    let (x_ptr, x_bnd) = make_str("x");
    let (y_ptr, y_bnd) = make_str("y");
    ab.allocate(x_bnd.clone(), x_ptr).unwrap();
    ab.allocate(y_bnd.clone(), y_ptr).unwrap();
    ab.mark_ptrs();
    assert_eq!(ab.len(), 2);
    assert!(matches!(ab.color_of(&x_bnd), Some(Color::White)));
    assert!(matches!(ab.color_of(&y_bnd), Some(Color::White)));
    assert_eq!(str_of(ab.find_id(&x_bnd).unwrap()), "x".to_string());
}

#[test]
fn test_realloc_moves_binding() {
    let mut ab = AllocBox::new();
    let (x_ptr, x_bnd) = make_str("payload");
    ab.allocate(x_bnd.clone(), x_ptr).unwrap();
    ab.mark_roots(&vec![x_bnd.clone()]);
    assert!(matches!(ab.color_of(&x_bnd), Some(Color::Black)));

    let new_bnd = UniqueBinding::mangle("renamed".to_string());
    assert!(ab.realloc(&x_bnd, new_bnd.clone()).is_ok());
    assert!(ab.find_id(&x_bnd).is_none());
    assert_eq!(str_of(ab.find_id(&new_bnd).unwrap()), "payload".to_string());
    // Relocation resets the color classification to white.
    assert!(matches!(ab.color_of(&new_bnd), Some(Color::White)));
    assert_eq!(ab.len(), 1);
}

#[test]
fn test_realloc_fail() {
    let mut ab = AllocBox::new();
    let never = UniqueBinding::anon();
    let new_bnd = UniqueBinding::anon();
    assert!(matches!(ab.realloc(&never, new_bnd), Err(GcError::HeapUpdate)));
}

#[test]
fn test_stale_roots_are_skipped() {
    let mut ab = AllocBox::new();
    let (x_ptr, x_bnd) = make_str("x");
    ab.allocate(x_bnd.clone(), x_ptr).unwrap();
    let stale = UniqueBinding::anon();
    ab.mark_roots(&vec![stale.clone(), x_bnd.clone()]);
    assert!(ab.color_of(&stale).is_none());
    assert!(matches!(ab.color_of(&x_bnd), Some(Color::Black)));
    assert_eq!(ab.len(), 1);
}

#[test]
fn test_binding_derivation() {
    let anon = UniqueBinding::anon();
    assert!(anon.name.is_none());
    let mangled = UniqueBinding::mangle("x".to_string());
    assert_eq!(mangled.name, Some("x".to_string()));
    let mangled2 = UniqueBinding::mangle("x".to_string());
    // Two derivations of the same name make distinct identifiers.
    assert_ne!(mangled.id, mangled2.id);
}
