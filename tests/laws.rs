use diceman::{roll_with_rng, Rng};

struct LowRng;

impl Rng for LowRng {
    fn roll(&mut self, _max: u32) -> u32 {
        1
    }
}

struct HighRng;

impl Rng for HighRng {
    fn roll(&mut self, max: u32) -> u32 {
        max
    }
}

#[test]
fn lowest_faces_never_beat_highest_faces() {
    for text in ["2d6 + 3", "d% + 4dF", "(3d8) + 1d20 + 7", "5", "4d6kh3 + 2d8dl1 + 1d6r=3", "2dF * (3dF + 1d4)", "(5d10>=8) * 2 + 3d6>4"] {
        let low = roll_with_rng(text, &mut LowRng).unwrap();
        let high = roll_with_rng(text, &mut HighRng).unwrap();
        assert!(low.total <= high.total, "{}", text);
    }
    assert_eq!(roll_with_rng("2d6 + 3", &mut LowRng).unwrap().total, 5);
    assert_eq!(roll_with_rng("2d6 + 3", &mut HighRng).unwrap().total, 15);
    assert_eq!(roll_with_rng("4d6kh3 + 2d8dl1 + 1d6r=3", &mut LowRng).unwrap().total, 5);
    assert_eq!(roll_with_rng("4d6kh3 + 2d8dl1 + 1d6r=3", &mut HighRng).unwrap().total, 32);
    assert_eq!(roll_with_rng("2dF * (3dF + 1d4)", &mut LowRng).unwrap().total, 4);
    assert_eq!(roll_with_rng("2dF * (3dF + 1d4)", &mut HighRng).unwrap().total, 14);
    assert_eq!(roll_with_rng("(5d10>=8) * 2 + 3d6>4", &mut LowRng).unwrap().total, 0);
    assert_eq!(roll_with_rng("(5d10>=8) * 2 + 3d6>4", &mut HighRng).unwrap().total, 13);
    // Counting successes below a value is not monotone in the faces.
    assert_eq!(roll_with_rng("1d6<3", &mut LowRng).unwrap().total, 1);
    assert_eq!(roll_with_rng("1d6<3", &mut HighRng).unwrap().total, 0);
}

struct ListRng(Vec<u32>, usize);

impl Rng for ListRng {
    fn roll(&mut self, _max: u32) -> u32 {
        let v = self.0[self.1];
        self.1 += 1;
        v
    }
}

#[test]
fn keep_highest_of_fewer_dice_keeps_all() {
    let plain = roll_with_rng("3d6", &mut ListRng(vec![2, 6, 1], 0)).unwrap();
    let kept = roll_with_rng("3d6kh5", &mut ListRng(vec![2, 6, 1], 0)).unwrap();
    assert_eq!(plain.total, 9);
    assert_eq!(kept.total, 9);
    assert!(kept.dice.iter().all(|d| !d.dropped));
    let kept_exact = roll_with_rng("3d6kh3", &mut ListRng(vec![2, 6, 1], 0)).unwrap();
    assert_eq!(kept_exact.total, 9);
}
