//! Dependencies in `Cargo.toml`.

use crate::manifest::add_name;
use crate::text::{
    begins_with, chars_of, contains, ends_with, finishes_with, has_part, is_word, lines,
    split_lines, starts_with, texts, trim, trimmed,
};
use crate::toml::{
    entry, entry_of, entry_with_table, entry_with_table_of, heading, heading_of, section,
};
use vstd::prelude::*;

verus! {

/// Whether a table lists dependencies: those of the package, of its tests or of
/// its build, for all targets or for one, or those of a workspace.
pub open spec fn is_cargo_table(name: Seq<char>) -> bool {
    ||| name == "dependencies"@
    ||| name == "dev-dependencies"@
    ||| name == "build-dependencies"@
    ||| name == "workspace.dependencies"@
    ||| begins_with(name, "target."@) && (finishes_with(name, ".dependencies"@) || finishes_with(
        name,
        ".dev-dependencies"@,
    ) || finishes_with(name, ".build-dependencies"@))
}

/// The dependency that a line in a table of dependencies names: its entry, where
/// the line does not look like code.
pub open spec fn cargo_entry(line: Seq<char>) -> Option<Seq<char>> {
    let t = trimmed(line);
    if has_part(t, "::"@) || has_part(t, "fn "@) || has_part(t, "pub "@) {
        None
    } else {
        entry(line)
    }
}

/// The dependency that line `k` of `Cargo.toml` names: as an entry of a table of
/// dependencies, or as the heading of a table for one such entry.
pub open spec fn cargo_dependency(pieces: Seq<Seq<char>>, k: int) -> Option<Seq<char>> {
    match heading(pieces[k]) {
        Some(name) => entry_with_table(name, |t: Seq<char>| is_cargo_table(t)),
        None => if is_cargo_table(section(pieces, k)) {
            cargo_entry(pieces[k])
        } else {
            None
        },
    }
}

/// Whether some line of the `Cargo.toml` that reads `text` names `name`.
pub open spec fn cargo_names(text: Seq<char>, name: Seq<char>) -> bool {
    exists|k: int|
        0 <= k < lines(text).len() && #[trigger] cargo_dependency(lines(text), k) == Some(name)
}

/// Whether a table lists dependencies.
fn cargo_table(name: &[char]) -> (r: bool)
    ensures
        r == is_cargo_table(name@),
{
    is_word(name, "dependencies") || is_word(name, "dev-dependencies") || is_word(
        name,
        "build-dependencies",
    ) || is_word(name, "workspace.dependencies") || (starts_with(
        name,
        chars_of("target.").as_slice(),
    ) && (ends_with(name, chars_of(".dependencies").as_slice()) || ends_with(
        name,
        chars_of(".dev-dependencies").as_slice(),
    ) || ends_with(name, chars_of(".build-dependencies").as_slice())))
}

/// The dependency that a line in a table of dependencies names.
fn cargo_entry_of(line: &[char]) -> (r: Option<String>)
    ensures
        match r {
            Some(name) => cargo_entry(line@) == Some(name@),
            None => cargo_entry(line@) is None,
        },
{
    let t: &[char] = trim(line);
    if contains(t, chars_of("::").as_slice()) || contains(t, chars_of("fn ").as_slice())
        || contains(t, chars_of("pub ").as_slice()) {
        None
    } else {
        entry_of(line)
    }
}

/// Adds the dependencies that the `Cargo.toml` that reads `text` names to `found`.
pub fn read_cargo(text: &str, found: &mut Vec<String>)
    ensures
        forall|name: Seq<char>|
            #![trigger texts(final(found)@).contains(name)]
            texts(final(found)@).contains(name) <==> texts(old(found)@).contains(name)
                || cargo_names(text@, name),
{
    let chars: Vec<char> = chars_of(text);
    let all: Vec<&[char]> = split_lines(chars.as_slice());
    let ghost pieces = lines(text@);
    let ghost start = texts(found@);
    let mut inside: bool = false;
    proof {
        reveal_strlit("dependencies");
        reveal_strlit("dev-dependencies");
        reveal_strlit("build-dependencies");
        reveal_strlit("workspace.dependencies");
        reveal_strlit("target.");
        let none = section(pieces, 0);
        assert(none.len() == 0 && "dependencies"@.len() > 0 && "dev-dependencies"@.len() > 0);
        assert("build-dependencies"@.len() > 0 && "workspace.dependencies"@.len() > 0);
        assert(!is_cargo_table(none));
    }
    let mut k: usize = 0;
    while k < all.len()
        invariant
            k <= all@.len(),
            pieces == lines(text@),
            pieces.len() == all@.len(),
            forall|m: int| 0 <= m < all@.len() ==> (#[trigger] all@[m])@ == pieces[m],
            inside == is_cargo_table(section(pieces, k as int)),
            forall|name: Seq<char>|
                #![trigger texts(found@).contains(name)]
                texts(found@).contains(name) <==> start.contains(name) || exists|m: int|
                    0 <= m < k && #[trigger] cargo_dependency(pieces, m) == Some(name),
        decreases all@.len() - k,
    {
        let line: &[char] = all[k];
        assert(line@ == pieces[k as int]);
        let dependency: Option<String> = match heading_of(line) {
            Some(name) => {
                inside = cargo_table(name);
                entry_with_table_of(name, cargo_table, Ghost(|t: Seq<char>| is_cargo_table(t)))
            },
            None => if inside {
                cargo_entry_of(line)
            } else {
                None
            },
        };
        let ghost named = cargo_dependency(pieces, k as int);
        if let Some(name) = dependency {
            add_name(found, name);
        }
        k += 1;
    }
}

} // verus!
