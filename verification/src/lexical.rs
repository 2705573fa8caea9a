//! Path names made absolute by their text alone: `.` is dropped and `..`
//! takes back the name before it. Nothing is looked up, so links are not
//! followed.

use vstd::prelude::*;

verus! {

/// One component of a path.
#[derive(Debug, PartialEq, Eq)]
pub enum Component {
    /// `.`
    CurDir,
    /// `..`
    ParentDir,
    /// A root or a prefix: where a path is anchored. Nothing lies above it.
    Anchor(String),
    /// A name.
    Normal(String),
}

/// The model of a component.
pub enum Part {
    CurDir,
    ParentDir,
    Anchor(Seq<char>),
    Normal(Seq<char>),
}

impl View for Component {
    type V = Part;

    open spec fn view(&self) -> Part {
        match self {
            Component::CurDir => Part::CurDir,
            Component::ParentDir => Part::ParentDir,
            Component::Anchor(name) => Part::Anchor(name@),
            Component::Normal(name) => Part::Normal(name@),
        }
    }
}

/// The models of a sequence of components.
pub open spec fn parts(components: Seq<Component>) -> Seq<Part> {
    components.map_values(|c: Component| c@)
}

/// The path `so_far` with one more component: `.` changes nothing, `..`
/// takes the last name away where the path ends in a name, and everything
/// else is put at the end.
pub open spec fn resolve_one(so_far: Seq<Part>, next: Part) -> Seq<Part> {
    match next {
        Part::CurDir => so_far,
        Part::ParentDir => if so_far.len() > 0 && so_far.last() is Normal {
            so_far.drop_last()
        } else {
            so_far
        },
        _ => so_far.push(next),
    }
}

/// The path `base` with the first `n` of `components`, one after another.
pub open spec fn resolve_upto(base: Seq<Part>, components: Seq<Part>, n: int) -> Seq<Part>
    decreases n,
{
    if n <= 0 {
        base
    } else {
        resolve_one(resolve_upto(base, components, n - 1), components[n - 1])
    }
}

/// The path `base` with all of `components`.
pub open spec fn resolve(base: Seq<Part>, components: Seq<Part>) -> Seq<Part> {
    resolve_upto(base, components, components.len() as int)
}

/// The absolute form of `path`: a path that is absolute starts from
/// nothing, every other path from `current_dir`.
pub fn to_lexical_absolute(path: Vec<Component>, is_absolute: bool, current_dir: Vec<Component>) -> (absolute:
    Vec<Component>)
    ensures
        parts(absolute@) == resolve(
            if is_absolute {
                Seq::<Part>::empty()
            } else {
                parts(current_dir@)
            },
            parts(path@),
        ),
{
    let mut absolute: Vec<Component> = if is_absolute {
        Vec::new()
    } else {
        current_dir
    };
    let ghost base = parts(absolute@);
    let ghost all = parts(path@);
    proof {
        if is_absolute {
            assert(base =~= Seq::<Part>::empty());
        }
    }
    for component in it: path
        invariant
            all == parts(it.seq()),
            parts(absolute@) == resolve_upto(base, all, it.index() as int),
    {
        let ghost before = absolute@;
        let ghost next = component@;
        proof {
            assert(all[it.index() as int] == next);
        }
        match component {
            Component::CurDir => {},
            Component::ParentDir => {
                let ends_in_name = absolute.len() > 0 && match absolute[absolute.len() - 1] {
                    Component::Normal(_) => true,
                    _ => false,
                };
                proof {
                    if before.len() > 0 {
                        assert(parts(before).last() == before.last()@);
                    }
                }
                if ends_in_name {
                    absolute.pop();
                    proof {
                        assert(parts(absolute@) =~= parts(before).drop_last());
                    }
                }
            },
            other => {
                absolute.push(other);
                proof {
                    assert(parts(absolute@) =~= parts(before).push(next));
                }
            },
        }
    }
    absolute
}

} // verus!
