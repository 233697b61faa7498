//! Laws of the library of models: names, finding and resolving them.
use vstd::prelude::*;

use crate::laws::texts;
use crate::metadata;
use crate::metadata::{Fault, GgufView};
use crate::models;
use crate::models::{
    CompatibilityView, DeleteError, FoundView, ModelKind, ModelView, ResolvedView,
};
use crate::pattern;
use crate::table;
use crate::text;

verus! {

proof fn lemma_last_component(dir: Seq<char>, name: Seq<char>)
    requires
        !texts::occurs(name, '/'),
    ensures
        models::last_component(dir + seq!['/'] + name) == name,
        models::last_component(name) == name,
    decreases name.len(),
{
    let path = dir + seq!['/'] + name;
    if name.len() == 0 {
        assert(path.last() == '/');
    } else {
        let less = name.drop_last();
        assert(!texts::occurs(less, '/')) by {
            if texts::occurs(less, '/') {
                let i = choose|i: int| 0 <= i < less.len() && #[trigger] less[i] == '/';
                assert(name[i] == '/');
            }
        }
        lemma_last_component(dir, less);
        assert(name[name.len() - 1] != '/');
        assert(path.drop_last() =~= dir + seq!['/'] + less);
        assert(path.last() == name.last());
        assert(less.push(name.last()) =~= name);
    }
}

/// The name of a file is what stands behind the last slash of its path, or the whole path where
/// there is none.
pub proof fn files_are_named_behind_the_last_slash(dir: Seq<char>, name: Seq<char>)
    requires
        name.len() > 0,
        !texts::occurs(name, '/'),
        name != "."@,
        name != ".."@,
    ensures
        models::file_name_of(dir + seq!['/'] + name) == Some(name),
        models::file_name_of(name) == Some(name),
{
    lemma_last_component(dir, name);
    let path = dir + seq!['/'] + name;
    assert(name[name.len() - 1] != '/');
    assert(path.last() == name.last());
    reveal_strlit(".");
    if name.last() == '.' && name.len() == 1 {
        assert(name =~= "."@);
    }
    if name.len() > 1 {
        assert(name[name.len() - 2] != '/');
        assert(path[path.len() - 2] == name[name.len() - 2]);
    }
    assert(models::trimmed_path(path) == path);
    assert(models::trimmed_path(name) == name);
}

/// Slashes at the end of a path do not change which file it leads to.
pub proof fn slashes_at_the_end_do_not_count(path: Seq<char>)
    ensures
        models::file_name_of(path.push('/')) == models::file_name_of(path),
{
    assert(path.push('/').drop_last() =~= path);
}

proof fn lemma_last_dot(front: Seq<char>, rest: Seq<char>)
    requires
        !texts::occurs(rest, '.'),
    ensures
        models::last_dot(front + seq!['.'] + rest) == front.len(),
        models::last_dot(rest) == -1,
    decreases rest.len(),
{
    let all = front + seq!['.'] + rest;
    if rest.len() == 0 {
        assert(all.last() == '.');
    } else {
        let less = rest.drop_last();
        assert(!texts::occurs(less, '.')) by {
            if texts::occurs(less, '.') {
                let i = choose|i: int| 0 <= i < less.len() && #[trigger] less[i] == '.';
                assert(rest[i] == '.');
            }
        }
        lemma_last_dot(front, less);
        assert(rest[rest.len() - 1] != '.');
        assert(all.drop_last() =~= front + seq!['.'] + less);
    }
}

/// A file's extension is what stands behind the last dot of its name, and its stem what stands
/// in front of it; a name with no dot behind its first letter has none.
pub proof fn extensions_stand_behind_the_last_dot(stem: Seq<char>, rest: Seq<char>)
    requires
        !texts::occurs(rest, '.'),
    ensures
        stem.len() > 0 ==> models::extension_of(stem + seq!['.'] + rest) == Some(rest),
        stem.len() > 0 ==> models::stem_of(stem + seq!['.'] + rest) == stem,
        models::extension_of(rest) is None,
        models::stem_of(rest) == rest,
        models::extension_of(seq!['.'] + rest) is None,
        models::stem_of(seq!['.'] + rest) == seq!['.'] + rest,
{
    lemma_last_dot(stem, rest);
    lemma_last_dot(seq![], rest);
    let all = stem + seq!['.'] + rest;
    assert(Seq::<char>::empty() + seq!['.'] + rest =~= seq!['.'] + rest);
    assert(all.take(stem.len() as int) =~= stem);
    assert(all.skip(stem.len() as int + 1) =~= rest);
}

/// The number of a part is written in its digits, with noughts in front up to five.
pub proof fn parts_are_numbered_in_five_digits(n: nat)
    ensures
        texts::only_digits(models::five_digits(n)),
        texts::worth(models::five_digits(n)) == n,
        models::five_digits(n).len() >= 5,
        models::five_digits(n).len() > 5 ==> models::five_digits(n)[0] != '0',
{
    let shown = text::decimal_of(n);
    texts::decimals_are_worth_their_number(n);
    if shown.len() < 5 {
        lemma_noughts((5 - shown.len()) as nat, shown);
    }
}

proof fn lemma_noughts(k: nat, s: Seq<char>)
    requires
        texts::only_digits(s),
    ensures
        texts::only_digits(Seq::new(k, |i: int| '0') + s),
        texts::worth(Seq::new(k, |i: int| '0') + s) == texts::worth(s),
    decreases k,
{
    let all = Seq::new(k, |i: int| '0') + s;
    if k == 0 {
        assert(all =~= s);
    } else {
        let less = Seq::new((k - 1) as nat, |i: int| '0') + s;
        lemma_noughts((k - 1) as nat, s);
        assert(all.skip(1) =~= less);
        assert(all[0] == '0');
        let p = vstd::arithmetic::power::pow(10, (all.len() - 1) as nat);
        assert(0 * p == 0) by (nonlinear_arith);
        assert forall|i: int| 0 <= i < all.len() implies '0' <= #[trigger] all[i] && all[i] <= '9' by {
            if i >= k {
                assert(all[i] == s[i - k]);
            }
        }
    }
}

/// A model that comes in parts consists of as many files as the name of one of them says, each
/// with its number and that count; any other consists of the one file.
pub proof fn parts_are_counted(name: Seq<char>, matches: Option<Seq<pattern::Groups>>)
    ensures
        ({
            let names = models::shard_names_from(name, matches);
            match matches {
                Some(m) => if m.len() > 0 {
                    let whole = pattern::group_of(m[0], 0);
                    let front = if whole.len() <= name.len() {
                        name.take(name.len() - whole.len())
                    } else {
                        seq![]
                    };
                    &&& forall|i: int|
                        0 <= i < names.len() ==> #[trigger] names[i] == front + "-"@
                            + models::five_digits((i + 1) as nat) + "-of-"@ + models::five_digits(
                            names.len(),
                        ) + ".gguf"@
                    &&& forall|n: u64|
                        n <= usize::MAX && #[trigger] text::decimal_of(n as nat)
                            == pattern::group_of(m[0], 2) ==> names.len() == n
                } else {
                    names.len() == 1 && names[0] == name
                },
                None => names.len() == 1 && names[0] == name,
            }
        }),
{
    match matches {
        Some(m) => {
            if m.len() > 0 {
                let group = pattern::group_of(m[0], 2);
                let names = models::shard_names_from(name, matches);
                assert forall|n: u64| n <= usize::MAX && #[trigger] text::decimal_of(n as nat)
                    == group implies names.len() == n by {
                    texts::decimals_read_back(n);
                    assert(text::number_of(group, usize::MAX as nat) == Some(n as nat));
                }
            }
        },
        None => {},
    }
}

/// Whether a model is one of the files that were found, under a name made of its stem.
pub open spec fn is_found(m: ModelView, f: FoundView) -> bool {
    let base = models::id_of(models::canonical_stem_of(f.path));
    &&& m.path == f.path
    &&& m.relative == f.relative
    &&& m.bytes == f.bytes
    &&& m.vision == f.vision
    &&& m.kind == if f.draft {
        ModelKind::Draft
    } else {
        ModelKind::Main
    }
    &&& m.id == base || m.id == models::id_of(text::split_of(f.relative, '/')[0]) + "--"@ + base
}

/// Whether a model is one of the first files that were found: large enough, with the name of
/// one.
pub open spec fn is_among(m: ModelView, list: Seq<FoundView>, n: int) -> bool {
    exists|k: int| 0 <= k < n && counts(#[trigger] list[k]) && is_found(m, list[k])
}

/// Whether a file that was found counts: it has fifty million bytes and the name of a model.
pub open spec fn counts(f: FoundView) -> bool {
    f.bytes >= 50_000_000 && models::is_model_path(f.path)
}

/// Whether a model stands in the library under an identifier.
pub open spec fn has_id(library: Seq<ModelView>, id: Seq<char>) -> bool {
    exists|i: int| 0 <= i < library.len() && (#[trigger] library[i]).id == id
}

/// Every model of the library is a file that was found, with all that was found of it, large
/// enough and with the name of one; and every such file stands in the library, unless another
/// stands there under the name that it would have had.
pub proof fn the_library_is_what_was_found(list: Seq<FoundView>)
    ensures
        forall|i: int|
            0 <= i < models::scanned(list).len() ==> is_among(
                #[trigger] models::scanned(list)[i],
                list,
                list.len() as int,
            ),
        forall|k: int|
            0 <= k < list.len() && counts(#[trigger] list[k]) ==> has_id(
                models::scanned(list),
                models::id_of(models::canonical_stem_of(list[k].path)),
            ),
{
    let all = models::collected(list, list.len());
    let main = models::of_kind(all, all.len(), ModelKind::Main);
    let draft = models::of_kind(all, all.len(), ModelKind::Draft);
    let out = models::scanned(list);
    lemma_collected(list, list.len());
    lemma_kind(all, all.len(), ModelKind::Main);
    lemma_kind(all, all.len(), ModelKind::Draft);
    assert forall|i: int| 0 <= i < out.len() implies is_among(
        #[trigger] out[i],
        list,
        list.len() as int,
    ) by {
        if i < main.len() {
            assert(out[i] == main[i]);
            assert(holds_value(all, all.len(), main[i]));
        } else {
            assert(out[i] == draft[i - main.len()]);
            assert(holds_value(all, all.len(), draft[i - main.len()]));
        }
        let j = choose|j: int| 0 <= j < all.len() && (#[trigger] all[j]).1 == out[i];
        assert(is_among(all[j].1, list, list.len() as int));
    }
    assert forall|k: int| 0 <= k < list.len() && counts(#[trigger] list[k]) implies has_id(
        out,
        models::id_of(models::canonical_stem_of(list[k].path)),
    ) by {
        let base = models::id_of(models::canonical_stem_of(list[k].path));
        lemma_has_key(all, base);
        let j = choose|j: int| 0 <= j < all.len() && (#[trigger] all[j]).0 == base;
        assert(all[j].1.id == base);
        if all[j].1.kind == ModelKind::Main {
            assert(main.contains(all[j].1));
            let i = choose|i: int| 0 <= i < main.len() && main[i] == all[j].1;
            assert(out[i] == main[i]);
        } else {
            assert(draft.contains(all[j].1));
            let i = choose|i: int| 0 <= i < draft.len() && draft[i] == all[j].1;
            assert(out[main.len() + i] == draft[i]);
        }
    }
}

spec fn holds_value(list: Seq<(Seq<char>, ModelView)>, n: nat, m: ModelView) -> bool {
    exists|j: int| 0 <= j < n && (#[trigger] list[j]).1 == m
}

proof fn lemma_kind(list: Seq<(Seq<char>, ModelView)>, n: nat, kind: ModelKind)
    requires
        n <= list.len(),
    ensures
        ({
            let out = models::of_kind(list, n, kind);
            &&& forall|i: int|
                0 <= i < out.len() ==> (#[trigger] out[i]).kind == kind && holds_value(list, n, out[i])
            &&& forall|j: int|
                0 <= j < n && (#[trigger] list[j]).1.kind == kind ==> out.contains(list[j].1)
        }),
    decreases n,
{
    if n > 0 {
        lemma_kind(list, (n - 1) as nat, kind);
        let less = models::of_kind(list, (n - 1) as nat, kind);
        let out = models::of_kind(list, n, kind);
        let last = list[n - 1].1;
        assert forall|i: int| 0 <= i < less.len() implies holds_value(list, n, #[trigger] less[i]) by {
            assert(holds_value(list, (n - 1) as nat, less[i]));
            let j = choose|j: int| 0 <= j < n - 1 && (#[trigger] list[j]).1 == less[i];
            assert(list[j].1 == less[i]);
        }
        if last.kind == kind {
            assert(out == less.push(last));
            assert(list[n - 1].1 == last);
            assert(holds_value(list, n, last));
            assert forall|j: int| 0 <= j < n && (#[trigger] list[j]).1.kind == kind implies out.contains(
                list[j].1,
            ) by {
                if j < n - 1 {
                    assert(less.contains(list[j].1));
                    let i = choose|i: int| 0 <= i < less.len() && less[i] == list[j].1;
                    assert(out[i] == list[j].1);
                } else {
                    assert(out[less.len() as int] == list[j].1);
                }
            }
            assert forall|i: int| 0 <= i < out.len() implies (#[trigger] out[i]).kind == kind
                && holds_value(list, n, out[i]) by {
                if i < less.len() {
                    assert(out[i] == less[i]);
                }
            }
        }
    }
}

proof fn lemma_put_has<V>(
    list: Seq<(Seq<char>, V)>,
    key: Seq<char>,
    value: V,
    i: int,
)
    requires
        table::ordered(list),
        0 <= i < table::put(list, key, value).len(),
    ensures
        ({
            let e = table::put(list, key, value)[i];
            e == (key, value) || exists|j: int| 0 <= j < list.len() && #[trigger] list[j] == e
        }),
{
    let new = table::put(list, key, value);
    let e = new[i];
    table::put_keeps_order(list, key, value);
    table::lemma_lookup_at(new, i);
    table::put_then_lookup(list, key, value, e.0);
    if e.0 == key {
        assert(e == (key, value));
    } else {
        assert(table::lookup(list, e.0) == Some(e.1));
        texts::the_first_entry_with_a_key_counts(list, e.0);
        let j = choose|j: int|
            0 <= j < list.len() && #[trigger] list[j] == (e.0, e.1) && forall|k: int|
                0 <= k < j ==> (#[trigger] list[k]).0 != e.0;
        assert(list[j] == e);
    }
}

proof fn lemma_has_key<V>(list: Seq<(Seq<char>, V)>, key: Seq<char>)
    ensures
        table::lookup(list, key) is Some <==> exists|j: int|
            0 <= j < list.len() && (#[trigger] list[j]).0 == key,
{
    texts::the_first_entry_with_a_key_counts(list, key);
    match table::lookup(list, key) {
        Some(v) => {
            let i = choose|i: int|
                0 <= i < list.len() && #[trigger] list[i] == (key, v) && forall|k: int|
                    0 <= k < i ==> (#[trigger] list[k]).0 != key;
            assert(list[i].0 == key);
        },
        None => {},
    }
}

proof fn lemma_collected(list: Seq<FoundView>, n: nat)
    requires
        n <= list.len(),
    ensures
        ({
            let all = models::collected(list, n);
            &&& table::ordered(all)
            &&& forall|i: int|
                0 <= i < all.len() ==> (#[trigger] all[i]).0 == all[i].1.id && is_among(
                    all[i].1,
                    list,
                    n as int,
                )
            &&& forall|k: int|
                0 <= k < n && counts(#[trigger] list[k]) ==> table::lookup(
                    all,
                    models::id_of(models::canonical_stem_of(list[k].path)),
                ) is Some
        }),
    decreases n,
{
    if n > 0 {
        let less = models::collected(list, (n - 1) as nat);
        let all = models::collected(list, n);
        lemma_collected(list, (n - 1) as nat);
        let f = list[n - 1];
        assert forall|i: int| 0 <= i < less.len() implies is_among(
            (#[trigger] less[i]).1,
            list,
            n as int,
        ) by {
            assert(is_among(less[i].1, list, n - 1));
            let k = choose|k: int|
                0 <= k < n - 1 && counts(#[trigger] list[k]) && is_found(less[i].1, list[k]);
            assert(counts(list[k]) && is_found(less[i].1, list[k]));
        }
        if models::is_model(f) {
            let base = models::id_of(models::canonical_stem_of(f.path));
            let id = models::id_beside(f, table::lookup(less, base) is Some);
            let m = ModelView {
                id,
                relative: f.relative,
                path: f.path,
                bytes: f.bytes,
                vision: f.vision,
                kind: if f.draft {
                    ModelKind::Draft
                } else {
                    ModelKind::Main
                },
            };
            assert(all == table::put(less, id, m));
            table::put_keeps_order(less, id, m);
            assert(counts(list[n - 1]) && is_found(m, list[n - 1]));
            assert(is_among(m, list, n as int));
            assert forall|i: int| 0 <= i < all.len() implies (#[trigger] all[i]).0 == all[i].1.id
                && is_among(all[i].1, list, n as int) by {
                lemma_put_has(less, id, m, i);
                if all[i] != (id, m) {
                    let j = choose|j: int| 0 <= j < less.len() && #[trigger] less[j] == all[i];
                    assert(less[j].0 == less[j].1.id);
                }
            }
            assert forall|k: int| 0 <= k < n && counts(#[trigger] list[k]) implies table::lookup(
                all,
                models::id_of(models::canonical_stem_of(list[k].path)),
            ) is Some by {
                let other = models::id_of(models::canonical_stem_of(list[k].path));
                table::put_then_lookup(less, id, m, other);
                if k == n - 1 && id != base {
                    assert(table::lookup(less, base) is Some);
                }
            }
        } else {
            assert(!counts(f));
        }
    }
}

/// Whether a query names a model: by its identifier, its path below the library or the name of
/// its file.
pub open spec fn named(m: ModelView, query: Seq<char>) -> bool {
    query == m.id || query == m.relative || models::file_name_of(m.path) == Some(query)
}

/// Whether the path of a model below the library holds a query, capital letters aside.
pub open spec fn part_of(m: ModelView, query: Seq<char>) -> bool {
    exists|i: int| #[trigger]
        text::at_position(pattern::lowercase(m.relative), pattern::lowercase(query), i)
}

proof fn lemma_hits(list: Seq<ModelView>, n: nat, query: Seq<char>) -> (at: Seq<int>)
    requires
        n <= list.len(),
        list.len() <= usize::MAX,
    ensures
        texts::chosen(list.take(n as int), |m: ModelView| part_of(m, query), at),
        models::hits(list, n, query).len() == at.len(),
        forall|k: int| 0 <= k < at.len() ==> models::hits(list, n, query)[k] == #[trigger] at[k],
    decreases n,
{
    let meant = |m: ModelView| part_of(m, query);
    if n == 0 {
        seq![]
    } else {
        let before = lemma_hits(list, (n - 1) as nat, query);
        texts::lemma_chosen(list, n - 1, meant, before);
        let earlier = models::hits(list, (n - 1) as nat, query);
        let all = models::hits(list, n, query);
        if meant(list[n - 1]) {
            let at = before.push(n - 1);
            assert forall|k: int| 0 <= k < at.len() implies all[k] == #[trigger] at[k] by {
                if k < before.len() {
                    assert(all[k] == earlier[k]);
                    assert(at[k] == before[k]);
                }
            }
            at
        } else {
            before
        }
    }
}

/// A query leads to the file that it is the path of; else to the first model that it names;
/// else to the only one whose path holds it, where more than one does to none of them; else,
/// where it has a slash, to a repository; else nowhere. An empty one asks for nothing.
pub proof fn queries_lead_to_what_they_name(list: Seq<ModelView>, query: Seq<char>, is_file: bool) -> (at: Seq<int>)
    requires
        list.len() <= usize::MAX,
    ensures
        texts::chosen(list, |m: ModelView| part_of(m, query), at),
        ({
            let none = forall|i: int| 0 <= i < list.len() ==> !named(#[trigger] list[i], query);
            match models::resolved(list, query, is_file) {
                ResolvedView::NoModel => query.len() == 0,
                ResolvedView::File(id) => query.len() > 0 && is_file && id == models::id_of(
                    models::canonical_stem_of(query),
                ),
                ResolvedView::Library(i) => query.len() > 0 && !is_file && 0 <= i < list.len() && {
                    ||| named(list[i], query) && forall|j: int|
                        0 <= j < i ==> !named(#[trigger] list[j], query)
                    ||| none && at.len() == 1 && at[0] == i
                },
                ResolvedView::Ambiguous(found) => query.len() > 0 && !is_file && none && at.len() > 1
                    && found.len() == at.len() && forall|k: int|
                    0 <= k < at.len() ==> found[k] == #[trigger] at[k],
                ResolvedView::Remote(id) => query.len() > 0 && !is_file && none && at.len() == 0
                    && texts::occurs(query, '/') && id == models::id_of(query),
                ResolvedView::Unmatched => query.len() > 0 && !is_file && none && at.len() == 0
                    && !texts::occurs(query, '/'),
            }
        }),
{
    let other = models::other_model(query);
    text::lemma_run(list, other);
    let first = text::run(list, other) as int;
    let at = lemma_hits(list, list.len(), query);
    assert(list.take(list.len() as int) =~= list);
    assert forall|j: int| 0 <= j < first implies !named(#[trigger] list[j], query) by {
        assert(other(list[j]));
    }
    if first < list.len() {
        assert(!other(list[first]));
        assert(named(list[first], query));
    }
    if query.contains('/') {
        let i = choose|i: int| 0 <= i < query.len() && query[i] == '/';
        assert(query[i] == '/');
    }
    let none = forall|i: int| 0 <= i < list.len() ==> !named(#[trigger] list[i], query);
    assert(first >= list.len() ==> none);
    let found = models::hits(list, list.len(), query);
    match models::resolved(list, query, is_file) {
        ResolvedView::NoModel => {
            assert(query.len() == 0);
        },
        ResolvedView::File(id) => {
            assert(is_file);
        },
        ResolvedView::Library(i) => {
            if first < list.len() {
                assert(i == first);
            } else {
                assert(found[0] == at[0]);
                assert(at.len() == 1 && at[0] == i);
                assert(0 <= at[0] < list.len());
            }
        },
        ResolvedView::Ambiguous(places) => {
            assert(none && at.len() > 1);
        },
        ResolvedView::Remote(id) => {
            assert(none && at.len() == 0);
        },
        ResolvedView::Unmatched => {
            assert(none && at.len() == 0);
            assert(!texts::occurs(query, '/'));
        },
    }
    at
}

/// What is asked for counts, and the default where nothing is.
pub proof fn the_default_counts_where_nothing_is_asked(query: Seq<char>, default: Seq<char>)
    ensures
        query.len() > 0 ==> models::wanted(Some(query), default) == query,
        models::wanted(Some(seq![]), default) == default,
        models::wanted(None, default) == default,
{
}

/// A model is loaded from its file, with the projector where one lies beside it.
pub proof fn models_are_loaded_from_their_file(path: Seq<char>, projector: Seq<char>)
    ensures
        ({
            let alone = models::model_args_of(path, None);
            let both = models::model_args_of(path, Some(projector));
            &&& alone.len() == 2
            &&& both.len() == 4
            &&& both.take(2) == alone
            &&& both[0] == "-m"@
            &&& both[1] == path
            &&& both[2] == "--mmproj"@
            &&& both[3] == projector
        }),
{
    assert(models::model_args_of(path, Some(projector)).take(2) =~= models::model_args_of(path, None));
}

/// The model to delete is the first with the identifier; a pinned one is not deleted.
pub proof fn pinned_models_stay(list: Seq<ModelView>, pinned: Seq<Seq<char>>, id: Seq<char>)
    ensures
        match models::deletable(list, pinned, id) {
            Ok(i) => 0 <= i < list.len() && list[i].id == id && (forall|j: int|
                0 <= j < i ==> (#[trigger] list[j]).id != id) && forall|k: int|
                0 <= k < pinned.len() ==> #[trigger] pinned[k] != id,
            Err(DeleteError::Pinned) => (exists|k: int|
                0 <= k < pinned.len() && #[trigger] pinned[k] == id) && exists|i: int|
                0 <= i < list.len() && (#[trigger] list[i]).id == id,
            Err(DeleteError::Unknown) => forall|i: int|
                0 <= i < list.len() ==> (#[trigger] list[i]).id != id,
        },
{
    let other = models::other_id(id);
    text::lemma_run(list, other);
    let at = text::run(list, other) as int;
    assert forall|j: int| 0 <= j < at implies (#[trigger] list[j]).id != id by {
        assert(other(list[j]));
    }
    if at < list.len() {
        assert(!other(list[at]));
        assert(list[at].id == id);
    }
    if pinned.contains(id) {
        let k = choose|k: int| 0 <= k < pinned.len() && pinned[k] == id;
        assert(pinned[k] == id);
    }
}

/// A model can draft for itself where it has layers for that and each of the three tensors that
/// they need, and not without one of them.
pub proof fn self_drafting_needs_layers_and_tensors(m: GgufView)
    ensures
        models::can_self_draft(m) <==> {
            &&& m.nextn_layers matches Some(n) && n > 0
            &&& exists|i: int| 0 <= i < m.mtp_markers.len() && #[trigger] m.mtp_markers[i] == "eh_proj"@
            &&& exists|i: int| 0 <= i < m.mtp_markers.len() && #[trigger] m.mtp_markers[i] == "enorm"@
            &&& exists|i: int| 0 <= i < m.mtp_markers.len() && #[trigger] m.mtp_markers[i] == "hnorm"@
        },
{
    lemma_contains(m.mtp_markers, "eh_proj"@);
    lemma_contains(m.mtp_markers, "enorm"@);
    lemma_contains(m.mtp_markers, "hnorm"@);
}

proof fn lemma_contains(list: Seq<Seq<char>>, item: Seq<char>)
    ensures
        list.contains(item) <==> exists|i: int| 0 <= i < list.len() && #[trigger] list[i] == item,
{
    if list.contains(item) {
        let i = choose|i: int| 0 <= i < list.len() && list[i] == item;
        assert(list[i] == item);
    }
}

/// A model whose pooling is the fourth ranks, one with any other pooling embeds, and one with
/// none chats.
pub proof fn pooling_tells_what_a_model_serves(m: GgufView)
    ensures
        m.pooling_type == Some(4u64) ==> models::serving_mode_of(Some(m)) == Some("rerank"@),
        m.pooling_type is None || m.pooling_type == Some(0u64) ==> models::serving_mode_of(
            Some(m),
        ) is None,
        (m.pooling_type matches Some(n) && n != 0 && n != 4) ==> models::serving_mode_of(Some(m))
            == Some("embed"@),
        models::serving_mode_of(None) is None,
{
}

/// A file holds a draft where its architecture is one of drafts, or it has one block and
/// tensors that draft; not where it is no model. It is not known where more must be read.
pub proof fn drafts_are_told_by_their_architecture(data: Seq<u8>)
    ensures
        match metadata::shape_of(data) {
            Ok((a, blocks)) => {
                let made = a == "dflash"@ || a == "dspark"@ || a == "eagle3"@ || (a.len() >= 10 && a.skip(
                    a.len() - 10,
                ) == "-assistant"@);
                &&& made ==> models::draft_of(data) == Ok::<bool, Fault>(true)
                &&& !made && blocks != Some(1u64) ==> models::draft_of(data) == Ok::<bool, Fault>(
                    false,
                )
                &&& !made && blocks == Some(1u64) ==> match metadata::metadata_of(data, true) {
                    Ok(m) => models::draft_of(data) == Ok::<bool, Fault>(m.mtp_markers.len() > 0),
                    Err(Fault::Malformed) => models::draft_of(data) == Ok::<bool, Fault>(false),
                    Err(Fault::Truncated) => models::draft_of(data) == Err::<bool, Fault>(
                        Fault::Truncated,
                    ),
                }
            },
            Err(Fault::Malformed) => models::draft_of(data) == Ok::<bool, Fault>(false),
            Err(Fault::Truncated) => models::draft_of(data) == Err::<bool, Fault>(Fault::Truncated),
        },
{
    reveal_strlit("-assistant");
    assert("-assistant"@.len() == 10);
    match metadata::shape_of(data) {
        Ok((a, _)) => {
            if "-assistant"@.is_suffix_of(a) {
                assert(a.skip(a.len() - 10) =~= "-assistant"@);
            }
        },
        Err(_) => {},
    }
}

/// A draft goes with a model only where it is another file, both files could be read, both have
/// a vocabulary, and the vocabularies go together; and then it does. It does not where it is
/// the same file or the vocabularies do not; else it is not known.
pub proof fn drafts_go_with_other_files(
    main: Seq<char>,
    draft: Seq<char>,
    main_meta: Option<GgufView>,
    draft_meta: Option<GgufView>,
)
    ensures
        ({
            let answer = models::drafts_for(main, draft, main_meta, draft_meta);
            let same = models::path_parts(main) == models::path_parts(draft);
            match (main_meta, draft_meta) {
                (Some(m), Some(d)) => match (m.tokenizer, d.tokenizer) {
                    (Some(a), Some(b)) => {
                        &&& same ==> answer is Incompatible
                        &&& !same ==> answer == models::vocabularies_agree(a, b)
                    },
                    _ => {
                        &&& same ==> answer is Incompatible
                        &&& !same ==> answer is Unknown
                    },
                },
                _ => {
                    &&& same ==> answer is Incompatible
                    &&& !same ==> answer is Unknown
                },
            }
        }),
{
}

} // verus!
