use vstd::prelude::*;

verus! {

/// The number found where no migration has been applied yet.
pub const NO_MIGRATION: i32 = -1;

/// How many migrations, counted from the first, have to be undone to empty
/// a store whose last applied migration has the number `last_applied`, out
/// of `total` known ones.
pub open spec fn applied_count(last_applied: i32, total: nat) -> nat {
    if last_applied < 0 {
        0
    } else if last_applied + 1 <= total {
        (last_applied + 1) as nat
    } else {
        total
    }
}

/// The number of migrations to undo, newest first, to empty the store.
pub fn migrations_to_undo(last_applied: i32, total: usize) -> (n: usize)
    ensures
        n == applied_count(last_applied, total as nat),
{
    if last_applied < 0 {
        0
    } else {
        let applied: i64 = last_applied as i64 + 1;
        if applied as u64 <= total as u64 {
            applied as usize
        } else {
            total
        }
    }
}

/// Whether the migration with the number `index` has yet to be applied to a
/// store whose last applied migration has the number `last_applied`.
pub fn is_outstanding(index: usize, last_applied: i32) -> (b: bool)
    ensures
        b == (index > last_applied),
{
    if index > 2147483647 {
        true
    } else {
        let id: i32 = index as i32;
        id > last_applied
    }
}

} // verus!
