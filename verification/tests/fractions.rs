use std::collections::{BTreeSet, HashMap};

use generic_octree::loc_code::UNIT;
use generic_octree::{Octree, AABB};

/// The same engine over floating-point fractions of the unit cube, kept
/// as simple as can be, to hold the engine over whole units against.
#[derive(Clone, Copy)]
struct Block {
    low: [f64; 3],
    high: [f64; 3],
    sides: [i8; 3],
}

impl Block {
    fn slice(self, axis: usize, at: f64) -> Vec<Block> {
        let mut lower = self;
        let mut upper = self;
        lower.sides[axis] = -1;
        upper.sides[axis] = 1;
        if self.low[axis] < at && self.high[axis] > at {
            lower.high[axis] = at;
            upper.low[axis] = at;
            vec![lower, upper]
        } else if self.high[axis] <= at {
            vec![lower]
        } else {
            vec![upper]
        }
    }

    fn explode(self, center: [f64; 3]) -> Vec<Block> {
        self.slice(0, center[0])
            .into_iter()
            .flat_map(|part| part.slice(1, center[1]))
            .flat_map(|part| part.slice(2, center[2]))
            .collect()
    }

    fn fit_in(&self, depth: u32, max_depth: u32) -> bool {
        let edge = 1.0 / (2_u64.pow(depth) as f64);
        (0..3).all(|axis| ((self.low[axis] - self.high[axis]).abs() - edge).abs() < f64::EPSILON)
            || depth == max_depth
    }

    fn selector(&self) -> u64 {
        match self.sides {
            [-1, 1, -1] => 0,
            [-1, 1, 1] => 1,
            [-1, -1, 1] => 2,
            [-1, -1, -1] => 3,
            [1, -1, -1] => 4,
            [1, -1, 1] => 5,
            [1, 1, 1] => 6,
            _ => 7,
        }
    }
}

struct Fractions {
    content: HashMap<u64, u32>,
    max_depth: u32,
}

impl Fractions {
    fn merge_inner(
        &mut self,
        block: Block,
        data: u32,
        center: [f64; 3],
        depth: u32,
        code: u64,
    ) -> BTreeSet<u64> {
        let mut dirty = BTreeSet::new();
        for part in block.explode(center) {
            let child = (code << 3) | part.selector();
            if part.fit_in(depth, self.max_depth) {
                self.content.insert(child, data);
                dirty.insert(child >> 3);
            } else {
                let offset = 1.0 / (2_u64.pow(depth + 1) as f64);
                let mut next = center;
                for axis in 0..3 {
                    next[axis] += offset * part.sides[axis] as f64;
                }
                let mut inner = part;
                inner.sides = [0, 0, 0];
                dirty.extend(self.merge_inner(inner, data, next, depth + 1, child));
            }
        }
        dirty
    }

    fn assemble(&mut self, code: u64) -> Option<u64> {
        let datas: Vec<u32> = (0..8)
            .filter_map(|digit| self.content.get(&((code << 3) | digit)).copied())
            .collect();
        if datas.len() != 8 || datas.iter().any(|data| *data != datas[0]) {
            return None;
        }
        for digit in 0..8 {
            self.content.remove(&((code << 3) | digit));
        }
        self.content.insert(code, datas[0]);
        Some(code >> 3)
    }

    fn merge(&mut self, low: [f64; 3], high: [f64; 3], data: u32) {
        let block = Block {
            low,
            high,
            sides: [0, 0, 0],
        };
        let mut codes: Vec<u64> = self
            .merge_inner(block, data, [0.5, 0.5, 0.5], 1, 1)
            .into_iter()
            .collect();
        while !codes.is_empty() {
            codes.sort();
            codes.reverse();
            let raised: BTreeSet<u64> = codes
                .into_iter()
                .filter_map(|code| self.assemble(code))
                .filter(|code| *code > 0)
                .collect();
            codes = raised.into_iter().collect();
        }
    }

    fn pairs(&self) -> Vec<(u64, u32)> {
        let mut pairs: Vec<(u64, u32)> = self
            .content
            .iter()
            .map(|(code, value)| (*code, *value))
            .collect();
        pairs.sort();
        pairs
    }
}

fn pairs(tree: &Octree<u32>) -> Vec<(u64, u32)> {
    let mut pairs: Vec<(u64, u32)> = tree
        .entries()
        .into_iter()
        .map(|(code, value)| (code.0, value))
        .collect();
    pairs.sort();
    pairs
}

fn units(fraction: f64) -> u64 {
    (fraction * (UNIT as f64)).round() as u64
}

struct Numbers(u64);

impl Numbers {
    fn next(&mut self, below: u64) -> u64 {
        self.0 = self
            .0
            .wrapping_mul(2862933555777941757)
            .wrapping_add(3037000493);
        (self.0 >> 33) % below
    }

    fn span(&mut self, grid: u64) -> (f64, f64) {
        let one = self.next(grid + 1);
        let other = self.next(grid + 1);
        (
            one.min(other) as f64 / grid as f64,
            one.max(other) as f64 / grid as f64,
        )
    }
}

fn compare(max_depth: u32, grid: u64, values: u64, rounds: usize, seed: u64) {
    let mut numbers = Numbers(seed);
    let mut tree: Octree<u32> = Octree::new(max_depth);
    let mut fractions = Fractions {
        content: HashMap::new(),
        max_depth,
    };
    for _ in 0..rounds {
        let x = numbers.span(grid);
        let y = numbers.span(grid);
        let z = numbers.span(grid);
        let value = numbers.next(values) as u32;
        let b = AABB::new(
            units(x.0),
            units(y.0),
            units(z.0),
            units(x.1),
            units(y.1),
            units(z.1),
        );
        assert_eq!(tree.merge(b, value), Ok(()));
        fractions.merge([x.0, y.0, z.0], [x.1, y.1, z.1], value);
        assert_eq!(pairs(&tree), fractions.pairs());
    }
}

#[test]
fn fractions_that_are_whole_numbers_of_cells() {
    compare(3, 8, 2, 300, 11);
    compare(4, 16, 3, 200, 12);
    compare(2, 4, 1, 200, 13);
}

#[test]
fn fractions_on_a_finer_grid_than_the_cells() {
    compare(2, 64, 2, 300, 14);
    compare(3, 1024, 2, 300, 15);
    compare(5, 4096, 3, 100, 16);
}

#[test]
fn the_three_boxes_of_the_half_cube() {
    let mut tree: Octree<u32> = Octree::new(21);
    let mut fractions = Fractions {
        content: HashMap::new(),
        max_depth: 21,
    };
    for (low, high) in [
        ([0.0, 0.0, 0.0], [1.0, 0.5, 0.75]),
        ([0.0, 0.0, 0.75], [1.0, 0.5, 1.0]),
        ([0.0, 0.5, 0.0], [1.0, 1.0, 1.0]),
    ] {
        let b = AABB::new(
            units(low[0]),
            units(low[1]),
            units(low[2]),
            units(high[0]),
            units(high[1]),
            units(high[2]),
        );
        assert_eq!(tree.merge(b, 1), Ok(()));
        fractions.merge(low, high, 1);
        assert_eq!(pairs(&tree), fractions.pairs());
    }
    assert_eq!(pairs(&tree), vec![(1, 1)]);
}
