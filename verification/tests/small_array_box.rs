use std::rc::Rc;
use string_container::SmallArrayBox;

type ByteArrayBox = SmallArrayBox<u8, 8>;

#[test]
fn test_new_empty() {
    let mut empty_array = ByteArrayBox::new_empty();

    let empty: &[u8] = &[];

    assert_eq!(empty_array.as_slice(), empty);
    assert_eq!(empty_array.as_mut_slice(), empty);
    assert!(empty_array.is_inline());

    let boxed = empty_array.into_boxed_slice();

    assert_eq!(&*boxed, empty);
}

#[test]
fn test_new() {
    let vec: Vec<u8> = (0..100).collect();

    for len in 0..vec.len() {
        let slice = &vec[..len];

        let mut array = ByteArrayBox::new(slice.to_vec());

        assert_eq!(array.as_slice(), slice);
        assert_eq!(array.as_mut_slice(), slice);
        assert_eq!(array.is_inline(), len <= 8);

        let boxed = array.into_boxed_slice();

        assert_eq!(&*boxed, slice);
    }
}

#[test]
fn test_from_box() {
    let vec: Vec<u8> = (0..100).collect();

    for len in 0..vec.len() {
        let slice = &vec[..len];

        let vec: Vec<u8> = slice.to_vec();

        let mut array = ByteArrayBox::from_box(vec.into_boxed_slice());

        assert_eq!(array.as_slice(), slice);
        assert_eq!(array.as_mut_slice(), slice);
        assert_eq!(array.is_inline(), len <= 8);

        let boxed = array.into_boxed_slice();

        assert_eq!(&*boxed, slice);
    }
}

#[test]
fn small_array_box_write_view_aliases_read_view() {
    let mut array = ByteArrayBox::new(vec![1, 2, 3]);
    array.as_mut_slice()[1] = 42;
    assert_eq!(array.as_slice(), &[1, 42, 3]);

    let mut spilled = ByteArrayBox::new((0..20).collect());
    spilled.as_mut_slice()[19] = 0;
    assert_eq!(spilled.as_slice()[19], 0);
    assert!(!spilled.is_inline());
}

#[test]
fn small_array_box_drops_each_element_once() {
    let token = Rc::new(());

    for len in 0..100usize {
        let elems: Vec<Rc<()>> = (0..len).map(|_| Rc::clone(&token)).collect();
        let array = SmallArrayBox::<Rc<()>, 8>::new(elems);
        assert_eq!(Rc::strong_count(&token), len + 1);
        drop(array);
        assert_eq!(Rc::strong_count(&token), 1);

        let elems: Vec<Rc<()>> = (0..len).map(|_| Rc::clone(&token)).collect();
        let array = SmallArrayBox::<Rc<()>, 8>::from_box(elems.into_boxed_slice());
        assert_eq!(Rc::strong_count(&token), len + 1);
        let boxed = array.into_boxed_slice();
        assert_eq!(Rc::strong_count(&token), len + 1);
        drop(boxed);
        assert_eq!(Rc::strong_count(&token), 1);
    }
}

#[test]
fn small_array_box_default_is_empty() {
    let array: ByteArrayBox = Default::default();
    assert_eq!(array.len(), 0);
    assert!(array.is_inline());
}
