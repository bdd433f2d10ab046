//! Checks on an output file and on what was logged to it.

use vstd::prelude::*;
use vstd::string::*;

verus! {

/// Why an output file cannot be a recording.
#[derive(Clone, Copy, Debug, PartialEq, Eq, Structural)]
pub enum FileFault {
    /// The path names something that is not a file.
    NotAFile,
    /// The file holds nothing.
    Empty,
    /// The file holds fewer than eight bytes.
    TooSmall,
}

/// The fault of a file, going by whether it is a regular file, its size, and
/// how many bytes a read of up to 64 bytes from its start brought.
pub open spec fn file_fault(is_file: bool, size: u64, bytes_read: usize) -> Option<FileFault> {
    if !is_file {
        Some(FileFault::NotAFile)
    } else if size == 0 {
        Some(FileFault::Empty)
    } else if bytes_read < 8 {
        Some(FileFault::TooSmall)
    } else {
        None
    }
}

/// Checks what is known of an output file.
pub fn check_file(is_file: bool, size: u64, bytes_read: usize) -> (r: Result<(), FileFault>)
    ensures
        match r {
            Ok(_) => file_fault(is_file, size, bytes_read) is None,
            Err(e) => file_fault(is_file, size, bytes_read) == Some(e),
        },
{
    if !is_file {
        Err(FileFault::NotAFile)
    } else if size == 0 {
        Err(FileFault::Empty)
    } else if bytes_read < 8 {
        Err(FileFault::TooSmall)
    } else {
        Ok(())
    }
}

/// What is wrong with an entity, by the position of the entity in the list.
#[derive(Clone, Copy, Debug, PartialEq, Eq, Structural)]
pub enum EntityFault {
    /// The path does not start with a slash.
    NoLeadingSlash { entity: usize },
    /// The path holds a blank.
    HasSpace { entity: usize },
    /// The time at `at` lies before the time in front of it.
    TimeGoesBack { entity: usize, at: usize },
}

/// The path does not start with a slash.
pub open spec fn lacks_slash(path: Seq<char>) -> bool {
    path.len() == 0 || path[0] != '/'
}

/// The places of `times` whose time lies before the one in front of it, as
/// faults of the entity `entity`, in rising order.
pub open spec fn time_faults(entity: usize, times: Seq<i64>) -> Seq<EntityFault>
    decreases times.len(),
{
    if times.len() <= 1 {
        Seq::empty()
    } else {
        let front = time_faults(entity, times.drop_last());
        if times[times.len() - 1] < times[times.len() - 2] {
            front.push(EntityFault::TimeGoesBack { entity, at: (times.len() - 1) as usize })
        } else {
            front
        }
    }
}

/// The faults of one entity: of its path first, then of its times.
pub open spec fn entity_faults(entity: usize, path: Seq<char>, times: Seq<i64>) -> Seq<
    EntityFault,
> {
    (if lacks_slash(path) {
        seq![EntityFault::NoLeadingSlash { entity }]
    } else {
        Seq::empty()
    }) + (if path.contains(' ') {
        seq![EntityFault::HasSpace { entity }]
    } else {
        Seq::empty()
    }) + time_faults(entity, times)
}

/// An entity path and the times at which something was logged to it.
#[derive(Clone, Debug, PartialEq, Eq)]
pub struct Entity {
    pub path: String,
    pub times: Vec<i64>,
}

/// The faults of the entities, each entity's after those of the entities
/// before it.
pub open spec fn all_faults(entities: Seq<Entity>) -> Seq<EntityFault>
    decreases entities.len(),
{
    if entities.len() == 0 {
        Seq::empty()
    } else {
        all_faults(entities.drop_last()) + entity_faults(
            (entities.len() - 1) as usize,
            entities.last().path@,
            entities.last().times@,
        )
    }
}

fn has_space(path: &str) -> (r: bool)
    ensures
        r == path@.contains(' '),
{
    let n = path.unicode_len();
    let mut i: usize = 0;
    while i < n
        invariant
            i <= n,
            n == path@.len(),
            forall|k: int| 0 <= k < i ==> path@[k] != ' ',
        decreases n - i,
    {
        if path.get_char(i) == ' ' {
            return true;
        }
        i = i + 1;
    }
    false
}

/// Checks entity paths and times: a path starts with a slash and holds no
/// blank, and the times of an entity never go back. Returns what is wrong;
/// nothing, where all is well.
pub fn check_entities(entities: &Vec<Entity>) -> (faults: Vec<EntityFault>)
    ensures
        faults@ == all_faults(entities@),
{
    let mut faults: Vec<EntityFault> = Vec::new();
    let mut e: usize = 0;
    while e < entities.len()
        invariant
            e <= entities@.len(),
            faults@ == all_faults(entities@.take(e as int)),
        decreases entities@.len() - e,
    {
        let entity = &entities[e];
        let ghost before = faults@;
        let path = entity.path.as_str();
        if path.is_empty() || path.get_char(0) != '/' {
            faults.push(EntityFault::NoLeadingSlash { entity: e });
        }
        if has_space(path) {
            faults.push(EntityFault::HasSpace { entity: e });
        }
        let ghost after_path = faults@;
        let mut i: usize = 1;
        while i < entity.times.len()
            invariant
                1 <= i,
                i <= entity.times@.len() || entity.times@.len() == 0,
                faults@ == after_path + time_faults(
                    e,
                    entity.times@.take(
                        if entity.times@.len() == 0 {
                            0
                        } else {
                            i as int
                        },
                    ),
                ),
            decreases entity.times@.len() - i,
        {
            assert(entity.times@.take(i + 1).drop_last() =~= entity.times@.take(i as int));
            if entity.times[i] < entity.times[i - 1] {
                faults.push(EntityFault::TimeGoesBack { entity: e, at: i });
            }
            i = i + 1;
        }
        proof {
            if entity.times@.len() > 0 {
                assert(entity.times@.take(i as int) =~= entity.times@);
            } else {
                assert(entity.times@.take(0) =~= entity.times@);
            }
            assert(entities@.take(e + 1).drop_last() =~= entities@.take(e as int));
            assert(faults@ =~= before + entity_faults(e, entity.path@, entity.times@));
        }
        e = e + 1;
    }
    assert(entities@.take(e as int) =~= entities@);
    faults
}

} // verus!
