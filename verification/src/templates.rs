//! Chat templates: their names, and the files that hold them.
use vstd::prelude::*;

use crate::drm;
use crate::json;
use crate::json::{Json, JsonValue};
use crate::models;
use crate::profiles;
use crate::table;
use crate::table::Table;
use crate::text;

verus! {

/// Templates by name.
pub struct Templates {
    pub templates: Table<String>,
}

impl View for Templates {
    type V = Seq<(Seq<char>, Seq<char>)>;

    open spec fn view(&self) -> Seq<(Seq<char>, Seq<char>)> {
        drm::fields_of(self.templates)
    }
}

impl Default for Templates {
    fn default() -> (out: Templates)
        ensures
            out@ == Seq::<(Seq<char>, Seq<char>)>::empty(),
    {
        let out: Templates = Templates { templates: Table::new() };
        proof {
            assert(out@ =~= Seq::<(Seq<char>, Seq<char>)>::empty());
        }
        out
    }
}

/// A name that is not one of a template: those consist of letters, digits, spaces,
/// dots, underscores and hyphens and start with a letter or a digit.
#[derive(Clone, Copy, Debug, PartialEq, Eq, Structural)]
pub struct InvalidName;

pub open spec fn is_template_char(c: char) -> bool {
    profiles::is_alphanumeric(c) || c == ' ' || c == '.' || c == '_' || c == '-'
}

/// Whether a text can name a template.
pub open spec fn is_template_name(s: Seq<char>) -> bool {
    &&& s.len() > 0
    &&& profiles::is_alphanumeric(s[0])
    &&& forall|i: int| 0 <= i < s.len() ==> is_template_char(#[trigger] s[i])
}

pub fn valid_name(name: &str) -> (out: Result<(), InvalidName>)
    ensures
        out is Ok <==> is_template_name(name@),
{
    let chars: Vec<char> = text::chars_of(name);
    if chars.len() == 0 || !profiles::alphanumeric(chars[0]) {
        return Err(InvalidName);
    }
    let mut i: usize = 0;
    while i < chars.len()
        invariant
            i <= chars@.len(),
            chars@ == name@,
            forall|j: int| 0 <= j < i ==> is_template_char(#[trigger] name@[j]),
        decreases chars@.len() - i,
    {
        let c: char = chars[i];
        if !(profiles::alphanumeric(c) || c == ' ' || c == '.' || c == '_' || c == '-') {
            proof {
                assert(!is_template_char(name@[i as int]));
            }
            return Err(InvalidName);
        }
        i += 1;
    }
    Ok(())
}

/// The name of the file that holds a template.
pub open spec fn file_of(name: Seq<char>) -> Seq<char> {
    name + ".jinja"@
}

pub fn template_file(name: &str) -> (out: String)
    ensures
        out@ == file_of(name@),
{
    let mut out: String = name.to_owned();
    out.append(".jinja");
    out
}

/// The template that a file holds, by the name of the file.
pub open spec fn template_in(file: Seq<char>) -> Option<Seq<char>> {
    if models::extension_of(file) == Some("jinja"@) && models::stem_of(file).len() > 0 {
        Some(models::stem_of(file))
    } else {
        None
    }
}

pub fn template_name(file: &str) -> (out: Option<String>)
    ensures
        match (out, template_in(file@)) {
            (Some(s), Some(t)) => s@ == t,
            (None, None) => true,
            _ => false,
        },
{
    let fits: bool = match models::extension(file) {
        Some(e) => text::same(e.as_str(), "jinja"),
        None => false,
    };
    if !fits {
        return None;
    }
    let stem: String = models::file_stem(file);
    if text::chars_of(stem.as_str()).len() == 0 {
        return None;
    }
    Some(stem)
}

/// Whether a file is one of a template that is not kept any more.
pub open spec fn is_stale(templates: Seq<(Seq<char>, Seq<char>)>, file: Seq<char>) -> bool {
    ".jinja"@.is_suffix_of(file) && forall|i: int|
        0 <= i < templates.len() ==> file_of((#[trigger] templates[i]).0) != file
}

/// The templates of an old file that are not kept yet, among its first `n`.
pub open spec fn new_ones(
    templates: Seq<(Seq<char>, Seq<char>)>,
    list: Seq<(Seq<char>, Json)>,
    n: nat,
) -> Seq<(Seq<char>, Seq<char>)>
    decreases n,
{
    if n == 0 {
        seq![]
    } else {
        let earlier = new_ones(templates, list, (n - 1) as nat);
        match list[n - 1].1 {
            Json::Text(content) if table::lookup(templates, list[n - 1].0) is None => earlier.push(
                (list[n - 1].0, content),
            ),
            _ => earlier,
        }
    }
}

/// The templates with more of them.
pub open spec fn joined_with(
    templates: Seq<(Seq<char>, Seq<char>)>,
    more: Seq<(Seq<char>, Seq<char>)>,
    n: nat,
) -> Seq<(Seq<char>, Seq<char>)>
    decreases n,
{
    if n == 0 {
        templates
    } else {
        table::put(joined_with(templates, more, (n - 1) as nat), more[n - 1].0, more[n - 1].1)
    }
}

/// The templates in an old file: the object under `templates`.
pub open spec fn old_templates(data: Json) -> Seq<(Seq<char>, Json)> {
    match json::member_in(data, "templates"@) {
        Some(Json::Object(list)) => list,
        _ => seq![],
    }
}

impl Templates {
    /// Whether a file is one of a template that is not kept any more.
    pub fn stale(&self, file: &str) -> (yes: bool)
        ensures
            yes == is_stale(self@, file@),
    {
        if !text::ends_with(file, ".jinja") {
            return false;
        }
        let mut i: usize = 0;
        while i < self.templates.len()
            invariant
                i <= self.templates@.len(),
                forall|j: int| 0 <= j < i ==> file_of((#[trigger] self@[j]).0) != file@,
            decreases self.templates@.len() - i,
        {
            if text::same(template_file(self.templates.key_at(i)).as_str(), file) {
                proof {
                    assert(self@[i as int].0 == self.templates@[i as int].0);
                }
                return false;
            }
            proof {
                assert(self@[i as int].0 == self.templates@[i as int].0);
            }
            i += 1;
        }
        true
    }

    /// Takes over the templates of an old file that are not kept yet, and says which.
    pub fn migrate(&mut self, data: &JsonValue) -> (out: Vec<(String, String)>)
        ensures
            ({
                let list = old_templates(data@);
                let more = new_ones(old(self)@, list, list.len());
                &&& profiles::pair_views(out@) == more
                &&& final(self)@ == joined_with(old(self)@, more, more.len())
            }),
    {
        let ghost before = self@;
        let ghost list = old_templates(data@);
        let mut out: Vec<(String, String)> = Vec::new();
        proof {
            assert(profiles::pair_views(out@) =~= seq![]);
        }
        match data.get("templates") {
            Some(JsonValue::Object(t)) => {
                proof {
                    json::lemma_members(*t);
                }
                let mut i: usize = 0;
                while i < t.len()
                    invariant
                        i <= t@.len(),
                        list == table::mapped(t@, json::to_json()),
                        self@ == before,
                        profiles::pair_views(out@) == new_ones(before, list, i as nat),
                    decreases t@.len() - i,
                {
                    proof {
                        assert(list[i as int] == (t@[i as int].0, json::json_of(t@[i as int].1)));
                        table::lemma_mapped_lookup(
                            self.templates@,
                            drm::to_chars(),
                            t@[i as int].0,
                        );
                    }
                    match t.value_at(i) {
                        JsonValue::String(content) => {
                            if !self.templates.contains_key(t.key_at(i)) {
                                let pair: (String, String) = (
                                    t.key_at(i).to_owned(),
                                    content.clone(),
                                );
                                let ghost earlier = profiles::pair_views(out@);
                                out.push(pair);
                                proof {
                                    assert(profiles::pair_views(out@) =~= earlier.push(
                                        (pair.0@, pair.1@),
                                    ));
                                }
                            }
                        },
                        _ => {},
                    }
                    i += 1;
                }
            },
            _ => {},
        }
        let ghost more = profiles::pair_views(out@);
        let mut k: usize = 0;
        while k < out.len()
            invariant
                k <= out@.len(),
                more == profiles::pair_views(out@),
                self@ == joined_with(before, more, k as nat),
            decreases out@.len() - k,
        {
            let name: String = out[k].0.clone();
            let content: String = out[k].1.clone();
            proof {
                assert(more[k as int] == (name@, content@));
                table::lemma_mapped_put(self.templates@, drm::to_chars(), name@, content);
            }
            self.templates.insert(name, content);
            k += 1;
        }
        out
    }
}

/// The file of a template gives back its name.
pub proof fn file_gives_back_name(name: Seq<char>)
    requires
        name.len() > 0,
    ensures
        template_in(file_of(name)) == Some(name),
{
    reveal_strlit(".jinja");
    reveal_strlit("jinja");
    let file = file_of(name);
    let n = name.len() as int;
    assert(file.drop_last() =~= name + seq!['.', 'j', 'i', 'n', 'j']);
    assert(file.drop_last().drop_last() =~= name + seq!['.', 'j', 'i', 'n']);
    assert(file.drop_last().drop_last().drop_last() =~= name + seq!['.', 'j', 'i']);
    assert(file.drop_last().drop_last().drop_last().drop_last() =~= name + seq!['.', 'j']);
    let short = name.push('.');
    assert(file.drop_last().drop_last().drop_last().drop_last().drop_last() =~= short);
    assert(models::last_dot(short) == n);
    reveal_with_fuel(models::last_dot, 7);
    assert(models::last_dot(file) == n);
    assert(file.take(n) =~= name);
    assert(file.skip(n + 1) =~= "jinja"@);
}

} // verus!
