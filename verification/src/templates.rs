//! Summary templates: which identifiers are acceptable, where a template is
//! taken from, and which templates a user may save.
use vstd::prelude::*;
use vstd::utf8::encode_utf8;
use vstd::string::StringSliceAdditionalSpecFns;
use crate::strings::views;
use crate::text::{char_len, char_slice, concat, owned, starts_with, starts_with_spec, str_eq};
use crate::database::key_remap::{insert_sorted, strictly_sorted};

verus! {

pub open spec fn id_byte_ok(b: u8) -> bool {
    (48 <= b <= 57) || (65 <= b <= 90) || (97 <= b <= 122) || b == 95 || b == 45
}

/// One to a hundred bytes, each an ASCII letter, digit, `_` or `-`: no path
/// separators, dots or other characters can reach a file name.
pub open spec fn valid_template_id(id: Seq<char>) -> bool {
    let b = encode_utf8(id);
    b.len() > 0 && b.len() <= 100 && forall|i: int| 0 <= i < b.len() ==> id_byte_ok(#[trigger] b[i])
}

pub fn validate_template_id(id: &str) -> (result: Result<(), String>)
    ensures
        result is Ok <==> valid_template_id(id@),
        result matches Err(e) ==> e@ == "Invalid template identifier"@,
{
    let b = id.as_bytes();
    if b.len() == 0 || b.len() > 100 {
        return Err(owned("Invalid template identifier"));
    }
    let mut i: usize = 0;
    while i < b.len()
        invariant
            i <= b@.len(),
            b@ == encode_utf8(id@),
            forall|k: int| 0 <= k < i ==> id_byte_ok(#[trigger] b@[k]),
        decreases b@.len() - i,
    {
        let c = b[i];
        if !((48 <= c && c <= 57) || (65 <= c && c <= 90) || (97 <= c && c <= 122) || c == 95 || c == 45) {
            return Err(owned("Invalid template identifier"));
        }
        i += 1;
    }
    Ok(())
}

/// A user may save only under a valid identifier in the `custom_` namespace,
/// so built-in templates are never overwritten.
pub open spec fn custom_save_problem(id: Seq<char>) -> Option<Seq<char>> {
    if !valid_template_id(id) {
        Some("Invalid template identifier"@)
    } else if !starts_with_spec(id, "custom_"@) {
        Some("Save built-in templates as a custom copy"@)
    } else {
        None
    }
}

pub fn check_custom_template_id(id: &str) -> (result: Result<(), String>)
    ensures
        match result {
            Ok(_) => custom_save_problem(id@) is None,
            Err(e) => custom_save_problem(id@) == Some(e@),
        },
{
    match validate_template_id(id) {
        Err(e) => {
            return Err(e);
        },
        Ok(_) => {},
    }
    if !starts_with(id, "custom_") {
        return Err(owned("Save built-in templates as a custom copy"));
    }
    Ok(())
}

/// The available identifiers joined with `", "`.
pub open spec fn joined_ids(ids: Seq<Seq<char>>) -> Seq<char>
    decreases ids.len(),
{
    if ids.len() == 0 {
        Seq::empty()
    } else if ids.len() == 1 {
        ids[0]
    } else {
        joined_ids(ids.drop_last()) + ", "@ + ids.last()
    }
}

fn join_ids(ids: &[String]) -> (result: String)
    ensures
        result@ == joined_ids(views(ids@)),
{
    let mut out = String::new();
    let mut i: usize = 0;
    while i < ids.len()
        invariant
            i <= ids@.len(),
            out@ == joined_ids(views(ids@).subrange(0, i as int)),
        decreases ids@.len() - i,
    {
        let ghost prev = views(ids@).subrange(0, i as int);
        let ghost next = views(ids@).subrange(0, i + 1);
        proof {
            assert(next.drop_last() =~= prev);
            assert(next.last() == ids@[i as int]@);
        }
        if i > 0 {
            out.append(", ");
        }
        out.append(ids[i].as_str());
        proof {
            if i == 0 {
                assert(out@ =~= next[0]);
            } else {
                assert(out@ =~= joined_ids(prev) + ", "@ + next.last());
            }
        }
        i += 1;
    }
    assert(views(ids@).subrange(0, ids@.len() as int) =~= views(ids@));
    out
}

pub open spec fn opt_view(o: Option<String>) -> Option<Seq<char>> {
    match o {
        Some(s) => Some(s@),
        None => None,
    }
}

/// Where a template comes from: the user's copy first, then the bundled
/// file, then the built-in text; otherwise the lookup fails and names the
/// available identifiers.
pub open spec fn template_source(
    id: Seq<char>,
    custom: Option<Seq<char>>,
    bundled: Option<Seq<char>>,
    builtin: Option<Seq<char>>,
    available: Seq<Seq<char>>,
) -> Result<Seq<char>, Seq<char>> {
    if !valid_template_id(id) {
        Err("Invalid template identifier"@)
    } else if custom is Some {
        Ok(custom->0)
    } else if bundled is Some {
        Ok(bundled->0)
    } else if builtin is Some {
        Ok(builtin->0)
    } else {
        Err("Template '"@ + id + "' not found. Available templates: "@ + joined_ids(available))
    }
}

/// Picks the JSON text of template `id` from what the three locations hold.
/// `available` is the identifier list named in the not-found error.
pub fn get_template(
    id: &str,
    custom: Option<String>,
    bundled: Option<String>,
    builtin: Option<String>,
    available: &[String],
) -> (result: Result<String, String>)
    ensures
        match (result, template_source(id@, opt_view(custom), opt_view(bundled), opt_view(builtin), views(available@))) {
            (Ok(text), Ok(expected)) => text@ == expected,
            (Err(e), Err(expected)) => e@ == expected,
            _ => false,
        },
{
    match validate_template_id(id) {
        Err(e) => {
            return Err(e);
        },
        Ok(_) => {},
    }
    if let Some(text) = custom {
        return Ok(text);
    }
    if let Some(text) = bundled {
        return Ok(text);
    }
    if let Some(text) = builtin {
        return Ok(text);
    }
    let mut msg = concat("Template '", id);
    msg.append("' not found. Available templates: ");
    let ids = join_ids(available);
    msg.append(ids.as_str());
    Err(msg)
}


/// `name` ends in `.json`.
pub open spec fn ends_with_json(name: Seq<char>) -> bool {
    name.len() >= 5 && name.subrange(name.len() - 5, name.len() as int) == ".json"@
}

/// `name` with every trailing `.json` removed, as `trim_end_matches(".json")` does.
pub open spec fn strip_json(name: Seq<char>) -> Seq<char>
    decreases name.len(),
{
    if ends_with_json(name) {
        strip_json(name.subrange(0, name.len() - 5))
    } else {
        name
    }
}

/// The identifiers a template directory's file names contribute: its
/// `.json` files with the extension removed.
pub open spec fn listed_ids(files: Seq<Seq<char>>) -> Set<Seq<char>> {
    Set::new(|id: Seq<char>| exists|i: int| 0 <= i < files.len() && ends_with_json(#[trigger] files[i]) && strip_json(files[i]) == id)
}

fn has_json_suffix(name: &str) -> (result: bool)
    ensures
        result == ends_with_json(name@),
{
    let n = char_len(name);
    n >= 5 && str_eq(char_slice(name, n - 5, n), ".json")
}

fn strip_json_suffixes(name: &str) -> (result: String)
    ensures
        result@ == strip_json(name@),
{
    let mut cur: &str = name;
    while has_json_suffix(cur)
        invariant
            strip_json(cur@) == strip_json(name@),
        decreases cur@.len(),
    {
        let n = char_len(cur);
        cur = char_slice(cur, 0, n - 5);
    }
    owned(cur)
}

/// Adds the identifiers of a directory's file names to `ids`.
fn add_listed(ids: &mut Vec<String>, files: &[String])
    requires
        strictly_sorted(views(old(ids)@)),
    ensures
        strictly_sorted(views(final(ids)@)),
        views(final(ids)@).to_set() == views(old(ids)@).to_set().union(listed_ids(views(files@))),
{
    let ghost start = views(ids@).to_set();
    let ghost fv = views(files@);
    let mut i: usize = 0;
    while i < files.len()
        invariant
            i <= files@.len(),
            fv == views(files@),
            strictly_sorted(views(ids@)),
            views(ids@).to_set() == start.union(listed_ids(fv.subrange(0, i as int))),
        decreases files@.len() - i,
    {
        let ghost before = views(ids@).to_set();
        let name = files[i].as_str();
        if has_json_suffix(name) {
            insert_sorted(ids, strip_json_suffixes(name));
        }
        proof {
            let prev = fv.subrange(0, i as int);
            let next = fv.subrange(0, i + 1);
            assert forall|id: Seq<char>| listed_ids(next).contains(id) <==> listed_ids(prev).contains(id) || (ends_with_json(
                fv[i as int],
            ) && strip_json(fv[i as int]) == id) by {
                if listed_ids(next).contains(id) {
                    let k = choose|k: int| 0 <= k < next.len() && ends_with_json(#[trigger] next[k]) && strip_json(next[k]) == id;
                    if k < i {
                        assert(prev[k] == next[k]);
                    }
                }
                if listed_ids(prev).contains(id) {
                    let k = choose|k: int| 0 <= k < prev.len() && ends_with_json(#[trigger] prev[k]) && strip_json(prev[k]) == id;
                    assert(next[k] == prev[k]);
                }
                if ends_with_json(fv[i as int]) && strip_json(fv[i as int]) == id {
                    assert(next[i as int] == fv[i as int]);
                }
            }
            assert(views(ids@).to_set() =~= start.union(listed_ids(next)));
        }
        i += 1;
    }
    assert(fv.subrange(0, files@.len() as int) =~= fv);
}

/// Every available template identifier, ascending: the built-in ones and
/// those of the `.json` files in the bundled and custom template
/// directories (given by file name), each once.
pub fn list_template_ids(builtin: &[String], bundled_files: &[String], custom_files: &[String]) -> (result: Vec<String>)
    requires
        views(builtin@).no_duplicates(),
    ensures
        strictly_sorted(views(result@)),
        views(result@).to_set() == views(builtin@).to_set().union(listed_ids(views(bundled_files@))).union(
            listed_ids(views(custom_files@)),
        ),
{
    let mut ids: Vec<String> = Vec::new();
    let mut i: usize = 0;
    while i < builtin.len()
        invariant
            i <= builtin@.len(),
            strictly_sorted(views(ids@)),
            views(ids@).to_set() == views(builtin@).subrange(0, i as int).to_set(),
        decreases builtin@.len() - i,
    {
        insert_sorted(&mut ids, owned(builtin[i].as_str()));
        proof {
            let prev = views(builtin@).subrange(0, i as int);
            assert(views(builtin@).subrange(0, i + 1) =~= prev.push(builtin@[i as int]@));
            prev.lemma_push_to_set_commute(builtin@[i as int]@);
        }
        i += 1;
    }
    assert(views(builtin@).subrange(0, builtin@.len() as int) =~= views(builtin@));
    add_listed(&mut ids, bundled_files);
    add_listed(&mut ids, custom_files);
    ids
}

/// Where a listed template is taken from, as the listing reports it: a
/// custom copy wins over a bundled file, and otherwise it is built in.
pub fn template_source_label(custom_found: bool, bundled_found: bool) -> (result: &'static str)
    ensures
        result@ == (if custom_found {
            "custom"@
        } else if bundled_found {
            "bundled"@
        } else {
            "builtin"@
        }),
{
    if custom_found {
        "custom"
    } else if bundled_found {
        "bundled"
    } else {
        "builtin"
    }
}

} // verus!
