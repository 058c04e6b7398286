use seq_align::dna::Dna::{self, A, C, G, Gap, T};
use seq_align::dna::DnaMetricSpace as Dms;
use seq_align::math::{
    align_lettre_mot, cout_align, coupure, dist_1, dist_2, dist_naif, mot_gaps, prog_dyn,
    rm_gaps, sol_1, sol_2,
};

fn small_pairs() -> Vec<(Vec<Dna>, Vec<Dna>)> {
    vec![
        (vec![], vec![]),
        (vec![A], vec![]),
        (vec![], vec![C, G]),
        (vec![A, C, T], vec![A, C, T]),
        (vec![A, C, T], vec![T, C, A]),
        (vec![G, G, G, G], vec![C]),
        (vec![T, A, T, A, T, G, A, G, T, C], vec![T, A, T, T, T]),
        (vec![A, T, A, T], vec![T, A, T, A]),
    ]
}

#[test]
fn boundary_distances() {
    assert_eq!(dist_naif::<Dms>(&[], &[]), 0);
    assert_eq!(dist_1::<Dms>(&[], &[]), 0);
    assert_eq!(dist_2::<Dms>(&[], &[]), 0);

    let y = [A, C, G, T, T];
    assert_eq!(dist_naif::<Dms>(&[], &y), 2 * y.len() as u64);
    assert_eq!(dist_1::<Dms>(&[], &y), 2 * y.len() as u64);
    assert_eq!(dist_2::<Dms>(&[], &y), 2 * y.len() as u64);

    let x = [G, G, A];
    assert_eq!(dist_naif::<Dms>(&x, &[]), 2 * x.len() as u64);
    assert_eq!(dist_1::<Dms>(&x, &[]), 2 * x.len() as u64);
    assert_eq!(dist_2::<Dms>(&x, &[]), 2 * x.len() as u64);
}

#[test]
fn cross_impl_agreement() {
    for (x, y) in small_pairs() {
        let d0 = dist_naif::<Dms>(&x, &y);
        let d1 = dist_1::<Dms>(&x, &y);
        let d2 = dist_2::<Dms>(&x, &y);
        let (dp, _) = prog_dyn::<Dms>(&x, &y);
        assert_eq!(d0, d1, "naive and full-table distance differ on {:?} {:?}", x, y);
        assert_eq!(d1, d2, "full-table and two-row distance differ on {:?} {:?}", x, y);
        assert_eq!(d1, dp, "full-table and prog_dyn distance differ on {:?} {:?}", x, y);
    }
}

#[test]
fn alignment_validity() {
    for (x, y) in small_pairs() {
        let a1 = sol_1::<Dms>(&x, &y);
        assert_eq!(rm_gaps::<Dms>(a1.0.clone()), x);
        assert_eq!(rm_gaps::<Dms>(a1.1.clone()), y);
        let a2 = sol_2::<Dms>(&x, &y);
        assert_eq!(rm_gaps::<Dms>(a2.0.clone()), x);
        assert_eq!(rm_gaps::<Dms>(a2.1.clone()), y);
    }
}

#[test]
fn alignment_optimality() {
    for (x, y) in small_pairs() {
        let d = dist_1::<Dms>(&x, &y);
        let a1 = sol_1::<Dms>(&x, &y);
        assert_eq!(cout_align::<Dms>(&a1.0, &a1.1), d);
        let a2 = sol_2::<Dms>(&x, &y);
        assert_eq!(cout_align::<Dms>(&a2.0, &a2.1), d);
    }
}

#[test]
fn cost_oracle_idempotent() {
    let xs = [A, T, Gap, A, C];
    let ys = [Gap, T, G, A, C];
    let first = cout_align::<Dms>(&xs, &ys);
    let second = cout_align::<Dms>(&xs, &ys);
    assert_eq!(first, second);
    assert_eq!(first, 4);
}

#[test]
fn divide_point_sanity() {
    for (x, y) in small_pairs() {
        if x.len() < 2 {
            continue;
        }
        let j = coupure::<Dms>(&x, &y);
        assert!(j <= y.len());
        let i = x.len() / 2;
        let left = dist_2::<Dms>(&x[..i], &y[..j]);
        let right = dist_2::<Dms>(&x[i..], &y[j..]);
        assert_eq!(left + right, dist_2::<Dms>(&x, &y));
    }
}

#[test]
fn concrete_scenario() {
    let x = vec![T, A, T, A, T, G, A, G, T, C];
    let y = vec![T, A, T, T, T];
    assert_eq!(dist_naif::<Dms>(&x, &y), 10);
    assert_eq!(dist_1::<Dms>(&x, &y), 10);
    assert_eq!(dist_2::<Dms>(&x, &y), 10);
    let al = sol_1::<Dms>(&x, &y);
    assert_eq!(rm_gaps::<Dms>(al.0.clone()), x);
    assert_eq!(rm_gaps::<Dms>(al.1.clone()), y);
    assert_eq!(cout_align::<Dms>(&al.0, &al.1), 10);
}

#[test]
fn gap_words() {
    let g = mot_gaps::<Dms>(3);
    assert_eq!(g, vec![Gap, Gap, Gap]);
    assert_eq!(rm_gaps::<Dms>(g), vec![]);
    assert_eq!(rm_gaps::<Dms>(vec![A, Gap, C, Gap, Gap, T]), vec![A, C, T]);
    assert_eq!(mot_gaps::<Dms>(0), vec![]);
}

#[test]
fn letter_against_word() {
    // the letter pairs with the cheapest position, every other column is a gap
    let (xs, ys) = align_lettre_mot::<Dms>(A, &[T, G, C]);
    assert_eq!(ys, vec![T, G, C]);
    assert_eq!(xs, vec![A, Gap, Gap]);
    assert_eq!(cout_align::<Dms>(&xs, &ys), 7);

    let (xs, ys) = align_lettre_mot::<Dms>(G, &[A, G, T]);
    assert_eq!(xs, vec![Gap, G, Gap]);
    assert_eq!(cout_align::<Dms>(&xs, &ys), 4);
}
