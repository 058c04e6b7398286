use seq_align::dna::Dna::{self, A, C, G, Gap, T};
use seq_align::dna::DnaBlock;
use seq_align::dna::DnaMetricSpace as Dms;
use seq_align::math::{
    align_lettre_mot, cout_align, coupure, dist_1, dist_2, dist_dp_full, dist_naif, mot_gaps,
    prog_dyn, rm_gaps, sol_1, sol_1_tab, sol_2, Align,
};

/// A small instance whose answers are known exactly: the two sequences are
/// at edit distance 10 under the DNA cost model.
fn known_instance() -> DnaBlock {
    DnaBlock(vec![T, A, T, A, T, G, A, G, T, C], vec![T, A, T, T, T])
}

fn test_dist<F>(f: F, name: &str)
where
    F: Fn(&Vec<Dna>, &Vec<Dna>) -> u64,
{
    let testcases = [(10, known_instance())];

    for (result, DnaBlock(l, r)) in testcases {
        let d = f(&l, &r);
        assert_eq!(
            d, result,
            "result for {}({:?}, {:?}) should be {} but {} was given instead!",
            name, l, r, result, d
        );
    }
}

fn test_against<F, F2, F3, T2>(f: F, f2: F2, comp: F3, name: &str)
where
    F: Fn(&Vec<Dna>, &Vec<Dna>) -> T2,
    F2: Fn(&Vec<Dna>, &Vec<Dna>) -> T2,
    F3: Fn(&T2, &T2) -> bool,
    T2: Eq + std::fmt::Debug,
{
    let testcases = [known_instance()];

    for DnaBlock(l, r) in testcases {
        let a = f(&l, &r);
        let b = f2(&l, &r);
        assert!(
            comp(&a, &b),
            "result mismatch! : {}({:?}, {:?}) = {:?} != {:?} = reference(..., ...)",
            name,
            l,
            r,
            a,
            b
        );
    }
}

#[test]
fn cout_align_dna() {
    assert_eq!(cout_align::<Dms>(&[A, T, Gap, A, C], &[Gap, T, G, A, C]), 4);
}

#[test]
fn dist_naif_dna() {
    test_dist(
        |l: &Vec<Dna>, r: &Vec<Dna>| -> u64 { dist_naif::<Dms>(l, r) },
        "dist_naif",
    );
}

#[test]
fn dist_1_dna() {
    test_dist(
        |l: &Vec<Dna>, r: &Vec<Dna>| -> u64 { dist_1::<Dms>(l, r) },
        "dist_1",
    );
}

#[test]
fn dist_2_dna() {
    test_dist(
        |l: &Vec<Dna>, r: &Vec<Dna>| -> u64 { dist_2::<Dms>(l, r) },
        "dist_2",
    );

    test_against(
        |l: &Vec<Dna>, r: &Vec<Dna>| -> u64 { dist_2::<Dms>(l, r) },
        |l: &Vec<Dna>, r: &Vec<Dna>| -> u64 { dist_1::<Dms>(l, r) },
        |a, b| a == b,
        "dist_2",
    )
}

#[test]
fn sol1_2() {
    // sanity tests
    let testcases = [known_instance()]
        .into_iter()
        .map(|b| (dist_2::<Dms>(b.0.as_slice(), b.1.as_slice()), b))
        .map(|(a, b)| (b, a));

    for (DnaBlock(l, r), d) in testcases {
        let al = sol_1::<Dms>(l.as_slice(), r.as_slice());
        assert_eq!(
            rm_gaps::<Dms>(al.0.clone()),
            l,
            "some letters 🍪 got eaten in sol_1"
        );
        assert_eq!(
            rm_gaps::<Dms>(al.1.clone()),
            r,
            "some letters 🍪 got eaten in sol_1"
        );
        let x = cout_align::<Dms>(al.0.as_slice(), al.1.as_slice());
        assert_eq!(x, d);

        ///////////////

        let al = sol_2::<Dms>(l.as_slice(), r.as_slice());
        assert_eq!(
            rm_gaps::<Dms>(al.0.clone()),
            l,
            "some letters 🍪 got eaten in sol_2"
        );
        assert_eq!(
            rm_gaps::<Dms>(al.1.clone()),
            r,
            "some letters 🍪 got eaten in sol_2"
        );
        let x = cout_align::<Dms>(al.0.as_slice(), al.1.as_slice());
        assert_eq!(x, d);
    }
}

#[test]
fn sol1() {
    // additional manual tests
    let testcases = [(
        Align::<Dms>(
            vec![T, A, T, A, T, G, A, G, T, C],
            vec![T, A, T, Gap, T, Gap, Gap, Gap, T, Gap],
        ),
        known_instance(),
    )];

    for (result, DnaBlock(l, r)) in testcases {
        let t = dist_dp_full::<Dms>(l.as_slice(), r.as_slice());
        for line in &t {
            println!("tableau: {:?}", line);
        }
        let d = sol_1_tab::<Dms>(l.as_slice(), r.as_slice(), t.as_slice());

        assert_eq!(
            rm_gaps::<Dms>(d.0.clone()),
            l,
            "some letters 🍪 got eaten in sol_1"
        );
        assert_eq!(
            rm_gaps::<Dms>(d.1.clone()),
            r,
            "some letters 🍪 got eaten in sol_1"
        );

        assert_eq!(
            d, result,
            "result for sol_1({:?}, {:?}) should be {:?} but {:?} was given instead!",
            l, r, result, d
        );
    }
}

#[test]
fn sol2() {
    test_against(
        |l: &Vec<Dna>, r: &Vec<Dna>| -> Align<Dms> {
            let Align::<Dms>(a, b) = sol_2(l, r);
            assert_eq!(
                rm_gaps::<Dms>(a.clone()),
                *l,
                "some letters 🍪 got eaten in sol_2"
            );
            assert_eq!(
                rm_gaps::<Dms>(b.clone()),
                *r,
                "some letters 🍪 got eaten in sol_2"
            );
            Align(a, b)
        },
        |l: &Vec<Dna>, r: &Vec<Dna>| -> Align<Dms> {
            let Align::<Dms>(a, b) = sol_1(l, r);
            assert_eq!(
                rm_gaps::<Dms>(a.clone()),
                *l,
                "some letters 🍪 got eaten in sol_1"
            );
            assert_eq!(
                rm_gaps::<Dms>(b.clone()),
                *r,
                "some letters 🍪 got eaten in sol_1"
            );
            Align(a, b)
        },
        |a, b| {
            let l = cout_align::<Dms>(a.0.as_slice(), a.1.as_slice());
            let r = cout_align::<Dms>(b.0.as_slice(), b.1.as_slice());
            l == r
        },
        "sol_2",
    )
}

#[test]
fn prog_dyn_dna() {
    // tests for prog_dyn are not needed since we already test sol_1 and dist_dp_full in other tests.
}
