use sparser::bitmap::Bitmap;

fn bitmap_eq(x: &Bitmap, y: &Bitmap) -> bool {
    for i in 0..1024 {
        if x.is_set(i) != y.is_set(i) {
            return false;
        }
    }
    true
}

fn bitmap_of(bits: &[usize]) -> Bitmap {
    let mut b = Bitmap::new();
    for &i in bits {
        b.set(i);
    }
    b
}

#[test]
fn test_bitmap_set_round_trip() {
    let mut b = Bitmap::new();
    for &i in &[0usize, 1, 62, 63, 64, 65, 127, 128, 511, 1000, 1023] {
        assert!(!b.is_set(i));
        b.set(i);
        assert!(b.is_set(i));
        b.unset(i);
        assert!(!b.is_set(i));
    }
}

#[test]
fn test_bitmap_count_tracks_population() {
    let mut b = Bitmap::new();
    assert_eq!(b.count(), 0);
    b.set(3);
    b.set(64);
    b.set(1023);
    assert_eq!(b.count(), 3);
    // Setting an already-set bit does not change the population.
    b.set(64);
    assert_eq!(b.count(), 3);
    b.unset(64);
    assert_eq!(b.count(), 2);
    // Clearing an already-clear bit does not change the population.
    b.unset(64);
    assert_eq!(b.count(), 2);
    b.reset();
    assert_eq!(b.count(), 0);
    assert!(!b.is_set(3));
    assert!(!b.is_set(1023));
}

#[test]
fn test_bitmap_and_intersects() {
    let a = bitmap_of(&[1, 5, 100, 900]);
    let b = bitmap_of(&[5, 100, 901]);
    let c = a.and(&b);
    assert_eq!(c.count(), 2);
    assert!(c.is_set(5));
    assert!(c.is_set(100));
    assert!(!c.is_set(1));
    assert!(!c.is_set(900));
    assert!(!c.is_set(901));
}

#[test]
fn test_bitmap_and_commutative() {
    let a = bitmap_of(&[0, 63, 64, 512]);
    let b = bitmap_of(&[63, 512, 1023]);
    let ab = a.and(&b);
    let ba = b.and(&a);
    assert!(bitmap_eq(&ab, &ba));
    assert_eq!(ab.count(), ba.count());
}

#[test]
fn test_bitmap_and_associative() {
    let a = bitmap_of(&[1, 2, 3, 500]);
    let b = bitmap_of(&[2, 3, 500, 700]);
    let c = bitmap_of(&[3, 500, 700, 999]);
    let left = a.and(&b).and(&c);
    let right = a.and(&b.and(&c));
    assert!(bitmap_eq(&left, &right));
    assert_eq!(left.count(), right.count());
}

#[test]
fn test_bitmap_and_idempotent() {
    let a = bitmap_of(&[7, 77, 777]);
    let aa = a.and(&a);
    assert!(bitmap_eq(&aa, &a));
    assert_eq!(aa.count(), a.count());
}
