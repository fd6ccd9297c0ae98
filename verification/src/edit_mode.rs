//! What the layout editor can select and how a drag manipulates it.
use vstd::prelude::*;

verus! {

/// The kind of layout object being edited.
#[derive(Clone, Copy, Debug, PartialEq, Eq, Structural)]
pub enum ObjectType {
    Room,
    Operation,
    Zone,
    Opening,
    Light,
    Furniture,
}

/// How a drag changes the selected object.
#[derive(Clone, Copy, Debug, PartialEq, Eq, Structural)]
pub enum ManipulationType {
    Move,
    ResizeLeft,
    ResizeRight,
    ResizeTop,
    ResizeBottom,
}

impl ManipulationType {
    /// The direction in which a resize moves the dragged edge: `0` for a
    /// move, `-1` for the left and bottom edges, `1` for the right and top
    /// edges.
    pub fn sign(self) -> (res: i8)
        ensures
            self == ManipulationType::Move ==> res == 0,
            self == ManipulationType::ResizeLeft || self == ManipulationType::ResizeBottom
                ==> res == -1,
            self == ManipulationType::ResizeRight || self == ManipulationType::ResizeTop
                ==> res == 1,
    {
        match self {
            ManipulationType::Move => 0,
            ManipulationType::ResizeLeft | ManipulationType::ResizeBottom => -1,
            ManipulationType::ResizeRight | ManipulationType::ResizeTop => 1,
        }
    }
}

/// What the editor was asked to do with an item of a list (materials,
/// operations, zones, openings, ...).
#[derive(Clone, Copy, Debug, PartialEq, Eq, Structural)]
pub enum AlterObject {
    Keep,
    Delete,
    MoveUp,
    MoveDown,
    Duplicate,
}

/// `s` with the items at `i` and `j` exchanged.
pub open spec fn swapped<T>(s: Seq<T>, i: int, j: int) -> Seq<T> {
    s.update(i, s[j]).update(j, s[i])
}

/// The list after the alteration `a` of the item at `index`: deleted, moved
/// one up, moved one down, or left as it is (a duplicate is made
/// elsewhere).
pub open spec fn alter_one<T>(s: Seq<T>, index: int, a: AlterObject) -> Seq<T> {
    match a {
        AlterObject::Delete => s.remove(index),
        AlterObject::MoveUp => swapped(s, index, index - 1),
        AlterObject::MoveDown => swapped(s, index, index + 1),
        _ => s,
    }
}

/// The alteration `a` of the item at `index` can be made on a list of
/// `len` items.
pub open spec fn alter_ok(len: int, index: int, a: AlterObject) -> bool {
    match a {
        AlterObject::Delete => 0 <= index < len,
        AlterObject::MoveUp => 1 <= index < len,
        AlterObject::MoveDown => 0 <= index && index + 1 < len,
        _ => true,
    }
}

/// The list after the alterations of the first `k` items, made from the
/// last of them to the first.
pub open spec fn altered<T>(s: Seq<T>, alts: Seq<AlterObject>, k: int) -> Seq<T>
    decreases k,
{
    if k <= 0 {
        s
    } else {
        altered(alter_one(s, k - 1, alts[k - 1]), alts, k - 1)
    }
}

/// Each of those alterations can be made when its turn comes.
pub open spec fn alterations_ok<T>(s: Seq<T>, alts: Seq<AlterObject>, k: int) -> bool
    decreases k,
{
    if k <= 0 {
        true
    } else {
        alter_ok(s.len() as int, k - 1, alts[k - 1]) && alterations_ok(
            alter_one(s, k - 1, alts[k - 1]),
            alts,
            k - 1,
        )
    }
}

/// Makes the alterations asked for, item by item from the last to the
/// first, so that deleting an item does not shift the ones still to do.
pub fn apply_alterations<T>(items: &mut Vec<T>, alterations: &[AlterObject])
    requires
        alterations_ok(old(items)@, alterations@, alterations@.len() as int),
    ensures
        final(items)@ == altered(old(items)@, alterations@, alterations@.len() as int),
{
    let mut k = alterations.len();
    while k > 0
        invariant
            k <= alterations@.len(),
            alterations_ok(items@, alterations@, k as int),
            altered(items@, alterations@, k as int) == altered(
                old(items)@,
                alterations@,
                alterations@.len() as int,
            ),
        decreases k,
    {
        let j = k - 1;
        let ghost cur = items@;
        match alterations[j] {
            AlterObject::Delete => {
                items.remove(j);
            },
            AlterObject::MoveUp => {
                let x = items.remove(j);
                items.insert(j - 1, x);
                proof {
                    assert(items@ =~= swapped(cur, j as int, j - 1));
                }
            },
            AlterObject::MoveDown => {
                let x = items.remove(j);
                items.insert(j + 1, x);
                proof {
                    assert(items@ =~= swapped(cur, j as int, j + 1));
                }
            },
            _ => {},
        }
        proof {
            assert(items@ == alter_one(cur, j as int, alterations@[j as int]));
        }
        k = j;
    }
}

} // verus!
