use std::collections::{BTreeMap, BTreeSet};

use generic_octree::loc_code::UNIT;
use generic_octree::{Octree, AABB};

/// Leaves as a plain ordered map, painted by a second, simple
/// implementation of the same rules.
struct Reference {
    leaves: BTreeMap<u64, u32>,
    max_depth: u32,
}

type Range = (u64, u64);

/// The parts of a range on the two sides of a coordinate, each with the
/// side it lies on: 0 for the lower side, 1 for the upper.
fn cut(range: Range, at: u64) -> Vec<(Range, u64)> {
    if range.0 < at && range.1 > at {
        vec![((range.0, at), 0), ((at, range.1), 1)]
    } else if range.1 <= at {
        vec![(range, 0)]
    } else {
        vec![(range, 1)]
    }
}

/// The selector of the corner on the given sides.
fn selector(x: u64, y: u64, z: u64) -> u64 {
    match (x, y, z) {
        (0, 1, 0) => 0,
        (0, 1, 1) => 1,
        (0, 0, 1) => 2,
        (0, 0, 0) => 3,
        (1, 0, 0) => 4,
        (1, 0, 1) => 5,
        (1, 1, 1) => 6,
        _ => 7,
    }
}

impl Reference {
    fn new(max_depth: u32) -> Self {
        Reference {
            leaves: BTreeMap::new(),
            max_depth,
        }
    }

    fn place(
        &mut self,
        ranges: (Range, Range, Range),
        value: u32,
        code: u64,
        center: (u64, u64, u64),
        depth: u32,
        dirty: &mut BTreeSet<u64>,
    ) {
        let edge = UNIT >> depth;
        for (x, side_x) in cut(ranges.0, center.0) {
            for (y, side_y) in cut(ranges.1, center.1) {
                for (z, side_z) in cut(ranges.2, center.2) {
                    let child = code * 8 + selector(side_x, side_y, side_z);
                    let cubic = x.1 - x.0 == edge && y.1 - y.0 == edge && z.1 - z.0 == edge;
                    if cubic || depth == self.max_depth {
                        self.leaves.insert(child, value);
                        dirty.insert(code);
                    } else {
                        let step = edge / 2;
                        let moved = |at: u64, side: u64| {
                            if side == 0 {
                                at - step
                            } else {
                                at + step
                            }
                        };
                        let next = (
                            moved(center.0, side_x),
                            moved(center.1, side_y),
                            moved(center.2, side_z),
                        );
                        self.place((x, y, z), value, child, next, depth + 1, dirty);
                    }
                }
            }
        }
    }

    fn merge(&mut self, ranges: (Range, Range, Range), value: u32) {
        let mut dirty = BTreeSet::new();
        let half = UNIT / 2;
        self.place(ranges, value, 1, (half, half, half), 1, &mut dirty);
        while !dirty.is_empty() {
            let mut raised = BTreeSet::new();
            for code in dirty.iter().rev() {
                let values: Vec<Option<u32>> = (0..8)
                    .map(|digit| self.leaves.get(&(code * 8 + digit)).copied())
                    .collect();
                let first = values[0];
                if first.is_some() && values.iter().all(|value| *value == first) {
                    for digit in 0..8 {
                        self.leaves.remove(&(code * 8 + digit));
                    }
                    self.leaves.insert(*code, first.unwrap());
                    if code / 8 > 0 {
                        raised.insert(code / 8);
                    }
                }
            }
            dirty = raised;
        }
    }

    fn pairs(&self) -> Vec<(u64, u32)> {
        self.leaves.iter().map(|(code, value)| (*code, *value)).collect()
    }
}

fn pairs(tree: &Octree<u32>) -> Vec<(u64, u32)> {
    let mut pairs: Vec<(u64, u32)> = tree
        .entries()
        .into_iter()
        .map(|(code, value)| (code.0, value))
        .collect();
    pairs.sort();
    pairs
}

/// A sequence of numbers that looks irregular and is the same on every
/// run.
struct Numbers(u64);

impl Numbers {
    fn next(&mut self, below: u64) -> u64 {
        self.0 = self
            .0
            .wrapping_mul(6364136223846793005)
            .wrapping_add(1442695040888963407);
        (self.0 >> 33) % below
    }

    fn range(&mut self, grid: u64) -> Range {
        let one = self.next(grid + 1);
        let other = self.next(grid + 1);
        let scale = UNIT / grid;
        (one.min(other) * scale, one.max(other) * scale)
    }
}

fn compare(max_depth: u32, grid: u64, values: u64, rounds: usize, seed: u64) {
    let mut numbers = Numbers(seed);
    let mut tree: Octree<u32> = Octree::new(max_depth);
    let mut reference = Reference::new(max_depth);
    for _ in 0..rounds {
        let x = numbers.range(grid);
        let y = numbers.range(grid);
        let z = numbers.range(grid);
        let value = numbers.next(values) as u32;
        assert_eq!(tree.merge(AABB::new(x.0, y.0, z.0, x.1, y.1, z.1), value), Ok(()));
        reference.merge((x, y, z), value);
        assert_eq!(pairs(&tree), reference.pairs());
        assert_eq!(tree.size(), reference.leaves.len());
    }
}

#[test]
fn boxes_on_the_grid_of_the_deepest_level() {
    compare(3, 8, 2, 300, 1);
    compare(2, 4, 1, 200, 2);
    compare(4, 16, 3, 150, 3);
}

#[test]
fn boxes_off_the_grid() {
    compare(2, 7, 2, 300, 4);
    compare(3, 13, 2, 200, 5);
    compare(1, 5, 2, 200, 6);
    compare(4, 100, 4, 100, 7);
}

#[test]
fn many_small_boxes_in_a_deep_tree() {
    let mut numbers = Numbers(8);
    let mut tree: Octree<u32> = Octree::new(6);
    let mut reference = Reference::new(6);
    let cell = UNIT / 64;
    for _ in 0..3000 {
        let x = numbers.next(8) * cell;
        let y = numbers.next(8) * cell;
        let z = numbers.next(8) * cell;
        let value = numbers.next(2) as u32;
        assert_eq!(
            tree.merge(AABB::new(x, y, z, x + cell, y + cell, z + cell), value),
            Ok(())
        );
        reference.merge(((x, x + cell), (y, y + cell), (z, z + cell)), value);
    }
    assert_eq!(pairs(&tree), reference.pairs());
    for (code, value) in reference.pairs() {
        assert_eq!(
            tree.lookup(generic_octree::LocCode(code)).map(|node| node.data),
            Some(value)
        );
    }
}
