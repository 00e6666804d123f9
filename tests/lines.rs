use std::cmp::Ordering;
use maximizer::bitarray::{zero, BitArray};
use maximizer::line::Line;
use maximizer::saturation::{canonical_key, seed_lines, Saturation, Step};

fn set_of(bits: &[usize]) -> BitArray<1> {
    let mut s = zero::<1>();
    for &b in bits {
        s.set(b);
    }
    s
}

fn line(finite: &[&[usize]], infinite: &[usize]) -> Line<1> {
    Line {
        finite: finite.iter().map(|b| set_of(b)).collect(),
        infinite: set_of(infinite),
    }
}

fn same(x: &Line<1>, y: &Line<1>) -> bool {
    x.finite.len() == y.finite.len()
        && x.finite.iter().zip(y.finite.iter()).all(|(p, q)| p == q)
        && x.infinite == y.infinite
}

#[test]
fn line_dominates_itself() {
    let l = line(&[&[0, 1], &[2]], &[0, 2]);
    assert!(l.ge(&l));
}

#[test]
fn explicit_copy_of_infinite_coordinate() {
    let l = line(&[&[0, 1], &[2]], &[0, 2]);
    let extended = line(&[&[0, 1], &[2], &[0, 2]], &[0, 2]);
    assert!(l.ge(&extended));
    assert!(extended.ge(&l));
}

#[test]
fn shrunk_line_is_dominated() {
    let big = line(&[&[0, 1], &[1, 2], &[3]], &[0, 1, 2, 3]);
    let small = line(&[&[2], &[0], &[3]], &[1, 2]);
    assert!(big.ge(&small));
    assert!(!small.ge(&big));
}

#[test]
fn seed_lines_do_not_dominate_each_other() {
    let l1 = line(&[&[0, 1]], &[0, 2]);
    let l2 = line(&[&[0]], &[0, 1, 2]);
    assert!(!l1.ge(&l2));
    assert!(!l2.ge(&l1));
}

#[test]
fn mandatory_coordinates_need_partners() {
    // The explicit coordinate {a} of the first line does not contain the
    // second line's infinite coordinate {a,c}, so it needs a partner.
    let a = line(&[&[0]], &[0, 1, 2]);
    let b = line(&[&[0, 1, 2], &[0]], &[0, 2]);
    assert!(a.ge(&b));
    let c = line(&[&[0, 1, 2], &[1]], &[0, 2]);
    assert!(!a.ge(&c));
}

#[test]
fn combinations_of_a_line_with_itself() {
    let l1 = line(&[&[0, 1]], &[0, 2]);
    let c = l1.combinations(&l1);
    assert_eq!(c.len(), 2);
    assert!(same(&c[0], &line(&[&[0, 1, 2], &[0]], &[0, 2])));
    assert!(same(&c[1], &line(&[&[0], &[0, 1, 2]], &[0, 2])));
}

#[test]
fn combinations_of_comparable_lines_are_empty() {
    let l1 = line(&[&[0, 1]], &[0, 2]);
    let l2 = line(&[&[0]], &[0, 1, 2]);
    assert!(l1.combinations(&l2).is_empty());
    assert!(l2.combinations(&l2).is_empty());
}

#[test]
fn combination_with_union_of_infinite_coordinates() {
    let x = line(&[], &[0]);
    let y = line(&[], &[1]);
    assert!(x.combinations(&y).is_empty());
    let x = line(&[], &[0, 2]);
    let y = line(&[], &[1, 2]);
    let c = x.combinations(&y);
    assert_eq!(c.len(), 1);
    assert!(same(&c[0], &line(&[&[0, 1, 2]], &[2])));
    assert!(c[0].finite[0].get(0) && c[0].finite[0].get(1));
}

#[test]
fn canonical_key_sorts_explicit_coordinates() {
    let l = line(&[&[0, 1, 2], &[0]], &[0, 2]);
    let k = canonical_key(&l);
    assert_eq!(k.len(), 3);
    assert!(k[0] == set_of(&[0]));
    assert!(k[1] == set_of(&[0, 1, 2]));
    assert!(k[2] == set_of(&[0, 2]));
    let m = line(&[&[0], &[0, 1, 2]], &[0, 2]);
    let km = canonical_key(&m);
    assert!(k.iter().zip(km.iter()).all(|(p, q)| p == q));
}

#[test]
fn seeds_split_off_the_infinite_coordinate() {
    let seeds = seed_lines(vec![vec![set_of(&[0, 1]), set_of(&[0, 2])], vec![set_of(&[3])]]);
    assert_eq!(seeds.len(), 2);
    assert!(same(&seeds[0], &line(&[&[0, 1]], &[0, 2])));
    assert!(same(&seeds[1], &line(&[], &[3])));
}

fn saturate(seeds: Vec<Line<1>>) -> (Vec<Step>, Saturation<1>) {
    let mut s = Saturation::new(seeds);
    let mut steps = vec![];
    loop {
        let r = s.step();
        steps.push(r);
        if r == Step::Finished {
            break;
        }
    }
    (steps, s)
}

fn is_antichain(lines: &[Line<1>]) -> bool {
    for i in 0..lines.len() {
        for j in 0..lines.len() {
            if i != j && lines[i].ge(&lines[j]) {
                return false;
            }
        }
    }
    true
}

#[test]
fn end_to_end_two_seed_lines() {
    let l1 = line(&[&[0, 1]], &[0, 2]);
    let l2 = line(&[&[0]], &[0, 1, 2]);
    let (steps, s) = saturate(vec![l1.clone(), l2.clone()]);
    assert_eq!(steps, vec![Step::Accepted, Step::Accepted, Step::Finished]);
    assert_eq!(s.done.len(), 2);
    assert!(same(&s.done[0], &l1));
    assert!(same(&s.done[1], &l2));
    assert!(s.todo.is_empty());
    assert_eq!(s.useless.len(), 1);
    assert!(is_antichain(&s.done));
}

#[test]
fn dominated_seed_is_discarded() {
    let big = line(&[&[0, 1]], &[0, 1]);
    let small = line(&[&[0]], &[0]);
    let (steps, s) = saturate(vec![small.clone(), big.clone()]);
    assert_eq!(steps[0], Step::Discarded);
    assert_eq!(steps[1], Step::Accepted);
    assert_eq!(s.done.len(), 1);
    assert!(same(&s.done[0], &big));
    let (steps, s) = saturate(vec![big.clone(), small.clone()]);
    assert_eq!(steps, vec![Step::Accepted, Step::Finished]);
    assert_eq!(s.done.len(), 1);
    assert!(same(&s.done[0], &big));
}

#[test]
fn combined_line_is_found() {
    let x = line(&[], &[0, 2]);
    let y = line(&[], &[1, 2]);
    let (_, s) = saturate(vec![x, y]);
    assert!(is_antichain(&s.done));
    assert_eq!(s.done.len(), 3);
    let union = line(&[&[0, 1, 2]], &[2]);
    assert!(s.done.iter().any(|d| d.ge(&union)));
    assert!(s.done.iter().any(|d| d.ge(&line(&[], &[0, 2]))));
    assert!(s.done.iter().any(|d| d.ge(&line(&[], &[1, 2]))));
}

#[test]
fn rerun_on_result_is_fixed_point() {
    for seeds in [
        vec![line(&[&[0, 1]], &[0, 2]), line(&[&[0]], &[0, 1, 2])],
        vec![line(&[], &[0, 2]), line(&[], &[1, 2])],
    ] {
        let (_, first) = saturate(seeds);
        assert!(is_antichain(&first.done));
        let (_, second) = saturate(first.done.clone());
        assert_eq!(second.done.len(), first.done.len());
        for d in &first.done {
            assert!(second.done.iter().any(|e| same(d, e)));
        }
    }
}

#[test]
fn run_reports_completion() {
    let mut s = Saturation::new(vec![line(&[&[0, 1]], &[0, 2]), line(&[&[0]], &[0, 1, 2])]);
    assert!(!s.run(1));
    assert!(s.run(100));
    assert_eq!(s.done.len(), 2);
}

#[test]
fn line_equals_itself() {
    let l = line(&[&[0, 1], &[2], &[0, 1]], &[0, 2]);
    assert!(l == l);
}

#[test]
fn copies_of_the_infinite_coordinate_do_not_count() {
    let l = line(&[&[0, 1], &[2]], &[0, 2]);
    let extended = line(&[&[0, 1], &[2], &[0, 2]], &[0, 2]);
    assert!(l == extended);
    assert!(extended == l);
    assert!(l.ge(&extended) && extended.ge(&l));
}

#[test]
fn order_of_explicit_coordinates_does_not_count() {
    let l = line(&[&[0, 1], &[2]], &[0, 2]);
    let m = line(&[&[2], &[0, 1]], &[0, 2]);
    assert!(l == m);
}

#[test]
fn multiplicity_counts() {
    let l = line(&[&[0, 1], &[0, 1]], &[0, 2]);
    let m = line(&[&[0, 1]], &[0, 2]);
    assert!(l != m);
    assert!(m != l);
    assert!(!l.ge(&m));
    assert!(!m.ge(&l));
    let l = line(&[&[0, 1, 2], &[0, 1, 2]], &[0, 2]);
    let m = line(&[&[0, 1, 2]], &[0, 2]);
    assert!(l != m);
    assert!(l.ge(&m));
    assert!(!m.ge(&l));
}

#[test]
fn different_infinite_coordinates_differ() {
    let l = line(&[&[0]], &[0, 2]);
    let m = line(&[&[0]], &[0, 1]);
    assert!(l != m);
}

#[test]
fn equal_or_strictly_ordered() {
    let lines = [
        line(&[&[0, 1]], &[0, 2]),
        line(&[&[0]], &[0, 1, 2]),
        line(&[&[0, 1], &[0, 2]], &[0, 2]),
        line(&[&[0, 2]], &[0, 2]),
        line(&[], &[0, 2]),
        line(&[&[1]], &[1]),
    ];
    for a in &lines {
        for b in &lines {
            let ge = a.ge(b);
            let le = b.ge(a);
            let eq = a == b;
            assert!((!eq && !(ge && le)) || (eq && ge && le));
        }
    }
}

#[test]
fn domination_is_transitive_on_examples() {
    let a = line(&[&[0, 1, 2]], &[0, 1]);
    let b = line(&[&[0, 1]], &[0]);
    let c = line(&[&[0]], &[0]);
    assert!(a.ge(&b));
    assert!(b.ge(&c));
    assert!(a.ge(&c));
}

#[test]
fn partial_cmp_follows_domination() {
    let big = line(&[&[0, 1]], &[0, 1]);
    let small = line(&[&[0]], &[0]);
    assert_eq!(big.partial_cmp(&small), Some(Ordering::Greater));
    assert_eq!(small.partial_cmp(&big), Some(Ordering::Less));
    assert_eq!(big.partial_cmp(&big), Some(Ordering::Equal));
    let extended = line(&[&[0, 1], &[0, 1]], &[0, 1]);
    assert_eq!(big.partial_cmp(&extended), Some(Ordering::Equal));
    let l1 = line(&[&[0, 1]], &[0, 2]);
    let l2 = line(&[&[0]], &[0, 1, 2]);
    assert_eq!(l1.partial_cmp(&l2), None);
}

#[test]
fn union_equal_to_a_part_is_discarded() {
    let a = line(&[&[0]], &[0, 1]);
    let b = line(&[], &[0, 2]);
    let c = a.combinations(&b);
    assert_eq!(c.len(), 1);
    assert!(same(&c[0], &line(&[&[0], &[0, 1, 2]], &[0])));
}
