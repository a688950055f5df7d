use calyx_runtime::interp::Interp;
use calyx_runtime::ir::{ParamSpec, Place, PrintLevel};
use calyx_runtime::nmod::Nmod;
use calyx_runtime::output::{Output, SinkKind, Target};
use calyx_runtime::random::{time_seed, Rng};
use calyx_runtime::reals::{default_bits, set_default_bits, DEFAULT_DIGITS};
use calyx_runtime::small::{next_index, register, EltType, SmallInfo, SmallKind, SmallRings};
use calyx_runtime::sym::{Interner, Sym};
use calyx_runtime::text::{decimal_string, push_decimal};
use std::cmp::Ordering;
use std::rc::Rc;

#[test]
fn generator_outputs_xoshiro256() {
    let mut r = Rng::new(42);
    assert_eq!(r.next_u64(), 1546998764402558742);
    assert_eq!(r.next_u64(), 6990951692964543102);
    assert_eq!(r.next_u64(), 12544586762248559009);
    assert_eq!(r.seed(), (42, 3));
    let mut z = Rng::new(0);
    assert_eq!(z.next_u64(), 11091344671253066420);
}

#[test]
fn seeds_reproduce_states() {
    let mut a = Rng::new(7);
    for _ in 0..4 {
        a.next_u64();
    }
    let mut b = Rng::new(99);
    b.set_seed(7, 4);
    assert_eq!(b.seed(), (7, 4));
    let x = a.next_u64();
    assert_eq!(x, b.next_u64());
    assert_eq!(x, 18278145976438096664);
}

#[test]
fn outputs_follow_from_seed_and_steps() {
    // Whatever came before, the next output is that of a fresh generator
    // with the same seed after the same steps.
    let mut a = Rng::new(5);
    a.set_seed(11, 2);
    a.next_u64();
    let (seed, steps) = a.seed();
    let mut fresh = Rng::new(seed);
    for _ in 0..steps {
        fresh.next_u64();
    }
    assert_eq!(a.next_u64(), fresh.next_u64());
}

#[test]
fn draws_below_a_bound() {
    let mut r = Rng::new(7);
    assert_eq!(r.below_u64(10), 4);
    assert_eq!(r.below_u64(10), 4);
    assert_eq!(r.below_u64(10), 8);
    assert_eq!(r.below_u64(1), 0);
    assert_eq!(r.seed(), (7, 4));
}

#[test]
fn checked_draws_agree_with_draws() {
    let mut a = Rng::new(7);
    let mut b = Rng::new(7);
    for n in [10u64, 10, 10, 1, 3] {
        assert_eq!(a.below_u64_checked(n), Some(b.below_u64(n)));
    }
    assert_eq!(a.seed(), b.seed());
    let bound = vec![5u64, 3];
    assert_eq!(a.below_checked(&bound), Some(b.below(&bound)));
    assert_eq!(a.below_checked(&[6]), Some(b.below(&[6])));
    assert_eq!(a.seed(), b.seed());
}

#[test]
fn names_are_interned_once() {
    let mut names = Interner::new();
    let a = Sym::new(&mut names, "alpha");
    let b = Sym::new(&mut names, "beta");
    let c = Sym::new(&mut names, "alpha");
    assert!(a == c);
    assert!(a != b);
    assert_eq!(a.index(), 0);
    assert_eq!(b.index(), 1);
    assert_eq!(names.len(), 2);
    assert_eq!(a.as_str(&names), "alpha");
    assert_eq!(*b.as_rc(&names), "beta");
}

#[test]
fn places_have_names() {
    let mut names = Interner::new();
    let x = Sym::new(&mut names, "x");
    assert!(Place::Local(3, x).name() == x);
    assert!(Place::Global(x).name() == x);
    let p = ParamSpec { slot: 1, name: x, is_ref: true };
    assert!(p.name == x && p.slot == 1 && p.is_ref);
    assert!(PrintLevel::Magma != PrintLevel::Default);
}

#[test]
fn decimals() {
    assert_eq!(decimal_string(0), "0");
    assert_eq!(decimal_string(1203), "1203");
    assert_eq!(decimal_string(u64::MAX), "18446744073709551615");
    let mut s = String::from("x = ");
    push_decimal(&mut s, 42);
    assert_eq!(s, "x = 42");
}

#[test]
fn residues_modulo_a_word() {
    let m = Nmod::new(7);
    assert_eq!(m.add(5, 4), 2);
    assert_eq!(m.sub(2, 5), 4);
    assert_eq!(m.mul(3, 5), 1);
    assert_eq!(m.neg(0), 0);
    assert_eq!(m.neg(3), 4);
    assert_eq!(m.reduce(100), 2);
    assert_eq!(m.inv(3), Some(5));
    assert_eq!(m.inv(0), None);
    let big = Nmod::new(u64::MAX);
    assert_eq!(big.mul(u64::MAX - 1, u64::MAX - 1), 1);
    assert_eq!(big.add(u64::MAX - 1, 1), 0);
    let m = Nmod::new(12);
    assert_eq!(m.inv(5), Some(5));
    assert_eq!(m.inv(4), None);
    assert_eq!(Nmod::new(1).inv(0), Some(0));
}

#[test]
fn small_rings_by_index() {
    let mut rings: SmallRings<String> = SmallRings::new();
    let i = next_index(&rings);
    let info = SmallInfo { m: Nmod::new(5), kind: SmallKind::PrimeField };
    register(&mut rings, i, info, Rc::new("GF(5)".to_string()));
    let j = next_index(&rings);
    register(&mut rings, j, SmallInfo { m: Nmod::new(12), kind: SmallKind::Residue }, Rc::new("Z/12".to_string()));
    assert_eq!(rings.len(), 2);
    assert!(i.info(&rings) == info);
    assert_eq!(j.modulus(&rings).n, 12);
    assert_eq!(*j.parent(&rings), "Z/12");
    assert_eq!(i.neg(&rings, 2), 3);
    assert_eq!(j.neg(&rings, 0), 0);
    assert_eq!(i.cmp_words(&rings, 1, 3), Ordering::Less);
    assert_eq!(i.cmp_words(&rings, 3, 3), Ordering::Equal);
    assert_eq!(i.cmp_words(&rings, 4, 3), Ordering::Greater);
    assert_eq!(i.elt_type(&rings), EltType::FldFinElt);
    assert_eq!(j.elt_type(&rings), EltType::RngIntResElt);
}

#[test]
fn default_precision() {
    let mut it = Interp::new();
    assert_eq!(DEFAULT_DIGITS, 30);
    assert_eq!(default_bits(&it), 100);
    set_default_bits(&mut it, 333);
    assert_eq!(default_bits(&it), 333);
}

#[test]
fn columns_follow_the_text() {
    let mut o = Output::capture_all();
    assert_eq!(o.col(), 0);
    let w = o.write("abc").unwrap();
    assert!(w.target == Target::Capture && !w.to_log);
    assert_eq!(o.col(), 3);
    o.write("de\nfgh\nij");
    assert_eq!(o.col(), 2);
    assert!(o.write("").is_none());
    o.ensure_newline();
    assert_eq!(o.col(), 0);
    assert!(o.ensure_newline().is_none());
    assert_eq!(o.take_captured(), "abcde\nfgh\nij\n");
    assert_eq!(o.take_captured(), "");
}

#[test]
fn captures_nest() {
    let mut o = Output::stdout();
    o.log = true;
    let w = o.write("x").unwrap();
    assert!(w.target == Target::Stdout && w.to_log);
    o.begin_capture();
    let w = o.write("inner").unwrap();
    assert!(w.target == Target::Capture && !w.to_log);
    assert_eq!(o.end_capture(), "inner");
    assert_eq!(o.col(), 1);
    // Ending a capture that is not there keeps the sink.
    assert_eq!(o.end_capture(), "");
    assert_eq!(o.stack.len(), 1);
    assert!(!o.unlimited());
    o.columns = 2_000_000;
    assert!(o.unlimited());
}

#[test]
fn redirections_replace_each_other() {
    let mut o = Output::stdout();
    assert!(!o.has_redirect());
    o.redirect_to_file(1);
    o.redirect_to_file(2);
    assert!(o.has_redirect());
    assert_eq!(o.stack.len(), 2);
    assert!(matches!(o.stack[1].kind, SinkKind::File(2)));
    let w = o.write("to file").unwrap();
    assert!(w.target == Target::File(2));
    assert!(o.unredirect());
    assert!(!o.unredirect());
    assert_eq!(o.stack.len(), 1);
}

#[test]
fn draws_below_bounds_of_several_limbs() {
    // 2^64: the top limb keeps one bit.
    let mut r = Rng::new(42);
    assert_eq!(r.below(&[0, 1]), vec![1546998764402558742, 0]);
    assert_eq!(r.seed(), (42, 2));
    // 3 * 2^64 + 5: the top limb keeps two bits.
    let mut r = Rng::new(42);
    assert_eq!(r.below(&[5, 3]), vec![1546998764402558742, 2]);
    // Blocks at or above the bound are rejected, all outputs counting.
    let mut r = Rng::new(6);
    assert_eq!(r.below(&[0, 1]), vec![17737115533934086160, 0]);
    assert_eq!(r.seed(), (6, 10));
    let mut r = Rng::new(7);
    assert_eq!(r.below(&[0, 0, 1]), vec![12923355070828475994, 5142052590334782674, 0]);
    // One limb draws as below_u64.
    let mut a = Rng::new(7);
    let mut b = Rng::new(7);
    assert_eq!(a.below(&[10]), vec![b.below_u64(10)]);
}

#[test]
fn clock_seeds_keep_the_low_bits_of_the_time() {
    assert_eq!(time_seed(0x1234_5678_9abc_def0, 77), 0x9abc_def0);
    assert_eq!(time_seed(5, u32::MAX), 5);
}
