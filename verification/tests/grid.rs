use strata::grid::{shift, Experts, MIX, SEED};

/// The generator, drawn once.
fn draw(rng: &mut u64) -> u64 {
    *rng ^= *rng >> 12;
    *rng ^= *rng << 25;
    *rng ^= *rng >> 27;
    rng.wrapping_mul(0x2545_F491_4F6C_DD1D)
}

#[test]
fn the_generator_shifts() {
    let mut rng = 0x9E37_79B9_7F4A_7C15_u64;
    assert_eq!(rng, SEED);
    let drawn = draw(&mut rng);
    assert_eq!(shift(SEED), rng);
    assert_eq!(shift(SEED).wrapping_mul(MIX), drawn);
    assert_eq!(shift(0), 0);
}

#[test]
fn experts_are_laid_out_by_tier() {
    let e = Experts::new(2, 5, 2, 2, 1);
    assert_eq!((e.rows(), e.cols(), e.seq()), (2, 5, 0));
    assert_eq!(e.counts(), (4, 2, 4));
    assert_eq!(e.map_hex(&[0; 10]), "80804000008080400000");
    assert_eq!(e.hits_hex(), "0000");
    let none = Experts::new(0, 0, 0, 0, 0);
    assert_eq!((none.rows(), none.cols()), (1, 1));
    assert_eq!(none.counts(), (0, 0, 1));
    let all = Experts::new(1, 3, 1, usize::MAX, usize::MAX);
    assert_eq!(all.counts(), (3, 0, 0));
}

#[test]
fn a_token_fires_experts_in_every_row() {
    let (rows, cols, top_k) = (3usize, 8usize, 2usize);
    let mut e = Experts::new(rows, cols, top_k, 4, 2);
    let mut rng = SEED;
    for token in 1..=50u64 {
        let mut want = Vec::new();
        let mut marks = vec![0u8; 3];
        for r in 0..rows {
            for _ in 0..top_k {
                let a = (draw(&mut rng) % cols as u64) as usize;
                let b = (draw(&mut rng) % cols as u64) as usize;
                // Where that one has fired already, the next that has not.
                let mut c = a.min(b);
                while want.contains(&(r * cols + c)) {
                    c = (c + 1) % cols;
                }
                let i = r * cols + c;
                want.push(i);
                marks[i >> 3] |= 1 << (i & 7);
            }
        }
        assert_eq!(e.tick(), want);
        assert_eq!(e.seq(), token);
        let hex: String = marks.iter().map(|b| format!("{b:02x}")).collect();
        assert_eq!(e.hits_hex(), hex);
    }
}

#[test]
fn no_more_fire_than_there_are() {
    let mut e = Experts::new(2, 3, 100, 0, 0);
    let mut all = e.tick();
    all.sort_unstable();
    assert_eq!(all, vec![0, 1, 2, 3, 4, 5]);
    assert_eq!(e.hits_hex(), "3f");
}

#[test]
fn every_row_fires_its_share() {
    let (rows, cols, top_k) = (5usize, 9usize, 8usize);
    let mut e = Experts::new(rows, cols, top_k, 0, 0);
    for _ in 0..200 {
        let fired = e.tick();
        assert_eq!(fired.len(), rows * top_k);
        for r in 0..rows {
            let mut row: Vec<usize> = fired[r * top_k..(r + 1) * top_k].to_vec();
            row.sort_unstable();
            row.dedup();
            assert_eq!(row.len(), top_k);
            assert!(row.iter().all(|i| i / cols == r));
        }
    }
}
