//! What the service can do.

use vstd::prelude::*;

use crate::diarize;
use crate::models_dir::ModelsDir;
use crate::summarize;
use crate::text;

verus! {

/// What the service can do.
pub struct ConfigReport {
    pub whisper_available: bool,
    pub sherpa_diarize_available: bool,
    pub summarize_available: bool,
    pub available_models: Vec<String>,
}

// ── Names of models ─────────────────────────────────────────────────────────

/// `s` ends with `p`.
pub open spec fn ends_in(s: Seq<char>, p: Seq<char>) -> bool {
    text::occurs_at(s, p, s.len() - p.len())
}

/// The name of a file that holds a model: it starts with `ggml-` and ends in `.bin`.
pub open spec fn is_model_file(name: Seq<char>) -> bool {
    text::occurs_at(name, "ggml-"@, 0) && ends_in(name, ".bin"@)
}

/// `s` without any `p` at its start.
pub open spec fn without_prefixes(s: Seq<char>, p: Seq<char>) -> Seq<char>
    decreases s.len(),
{
    if p.len() > 0 && text::occurs_at(s, p, 0) {
        without_prefixes(s.skip(p.len() as int), p)
    } else {
        s
    }
}

/// `s` without any `p` at its end.
pub open spec fn without_suffixes(s: Seq<char>, p: Seq<char>) -> Seq<char>
    decreases s.len(),
{
    if p.len() > 0 && ends_in(s, p) {
        without_suffixes(s.take(s.len() - p.len()), p)
    } else {
        s
    }
}

/// The name of the model in a file.
pub open spec fn model_in(name: Seq<char>) -> Seq<char> {
    without_suffixes(without_prefixes(name, "ggml-"@), ".bin"@)
}

fn strip_prefixes(v: &Vec<char>, p: &Vec<char>) -> (out: Vec<char>)
    ensures
        out@ == without_prefixes(v@, p@),
{
    let mut rest = text::slice_chars(v, 0, v.len());
    assert(rest@ =~= v@);
    while p.len() > 0 && text::stands_at(&rest, p, 0)
        invariant
            without_prefixes(v@, p@) == without_prefixes(rest@, p@),
        decreases rest@.len(),
    {
        let next = text::slice_chars(&rest, p.len(), rest.len());
        assert(next@ =~= rest@.skip(p@.len() as int));
        rest = next;
    }
    rest
}

fn strip_suffixes(v: &Vec<char>, p: &Vec<char>) -> (out: Vec<char>)
    ensures
        out@ == without_suffixes(v@, p@),
{
    let mut rest = text::slice_chars(v, 0, v.len());
    assert(rest@ =~= v@);
    while p.len() > 0 && p.len() <= rest.len() && text::stands_at(&rest, p, rest.len() - p.len())
        invariant
            without_suffixes(v@, p@) == without_suffixes(rest@, p@),
        decreases rest@.len(),
    {
        let next = text::slice_chars(&rest, 0, rest.len() - p.len());
        assert(next@ =~= rest@.take(rest@.len() - p@.len()));
        rest = next;
    }
    rest
}

/// The name of the model in a file, if it holds one.
pub fn model_name(file: &str) -> (out: Option<String>)
    ensures
        text::opt_text(out) == if is_model_file(file@) {
            Some(model_in(file@))
        } else {
            None
        },
{
    let name = text::chars_of(file);
    let head = text::chars_of("ggml-");
    let tail = text::chars_of(".bin");
    if text::stands_at(&name, &head, 0) && tail.len() <= name.len() && text::stands_at(
        &name,
        &tail,
        name.len() - tail.len(),
    ) {
        Some(text::string_of(&strip_suffixes(&strip_prefixes(&name, &head), &tail)))
    } else {
        None
    }
}

// ── The list of models ──────────────────────────────────────────────────────

/// `a` stands before `b` in the order of texts, or is the same.
pub open spec fn in_order(a: Seq<char>, b: Seq<char>) -> bool
    decreases a.len(),
{
    if a.len() == 0 {
        true
    } else if b.len() == 0 {
        false
    } else if a[0] != b[0] {
        a[0] < b[0]
    } else {
        in_order(a.drop_first(), b.drop_first())
    }
}

/// Each text stands before those after it, or is the same.
pub open spec fn is_sorted(list: Seq<Seq<char>>) -> bool {
    forall|i: int, j: int|
        0 <= i <= j < list.len() ==> in_order(#[trigger] list[i], #[trigger] list[j])
}

/// The names of the models in these files, in the order of the files.
pub open spec fn models_in(files: Seq<Seq<char>>) -> Seq<Seq<char>>
    decreases files.len(),
{
    if files.len() == 0 {
        Seq::empty()
    } else {
        let before = models_in(files.drop_last());
        if is_model_file(files.last()) {
            before.push(model_in(files.last()))
        } else {
            before
        }
    }
}

fn ordered(a: &str, b: &str) -> (yes: bool)
    ensures
        yes == in_order(a@, b@),
{
    let x = text::chars_of(a);
    let y = text::chars_of(b);
    let mut i: usize = 0;
    assert(x@.skip(0) =~= x@);
    assert(y@.skip(0) =~= y@);
    while i < x.len() && i < y.len()
        invariant
            i <= x.len(),
            i <= y.len(),
            x@ == a@,
            y@ == b@,
            in_order(a@, b@) == in_order(x@.skip(i as int), y@.skip(i as int)),
        decreases x.len() - i,
    {
        if x[i] != y[i] {
            return x[i] < y[i];
        }
        assert(x@.skip(i as int).drop_first() =~= x@.skip(i + 1));
        assert(y@.skip(i as int).drop_first() =~= y@.skip(i + 1));
        i += 1;
    }
    i == x.len()
}

proof fn lemma_order_total(a: Seq<char>, b: Seq<char>)
    ensures
        in_order(a, b) || in_order(b, a),
        in_order(a, a),
    decreases a.len(),
{
    if a.len() > 0 {
        lemma_order_total(a.drop_first(), a.drop_first());
        if b.len() > 0 && a[0] == b[0] {
            lemma_order_total(a.drop_first(), b.drop_first());
        }
    }
}

proof fn lemma_order_transitive(a: Seq<char>, b: Seq<char>, c: Seq<char>)
    requires
        in_order(a, b),
        in_order(b, c),
    ensures
        in_order(a, c),
    decreases a.len(),
{
    if a.len() > 0 && c.len() > 0 && b.len() > 0 && a[0] == b[0] && b[0] == c[0] {
        lemma_order_transitive(a.drop_first(), b.drop_first(), c.drop_first());
    }
}

/// Puts a name into a sorted list.
fn insert_sorted(list: &mut Vec<String>, name: String)
    requires
        is_sorted(text::texts(old(list)@)),
    ensures
        is_sorted(text::texts(final(list)@)),
        text::texts(final(list)@).to_multiset() == text::texts(old(list)@).to_multiset().insert(name@),
{
    let ghost before = text::texts(list@);
    let mut at: usize = 0;
    while at < list.len() && ordered(list[at].as_str(), name.as_str())
        invariant
            at <= list.len(),
            text::texts(list@) == before,
            forall|i: int| 0 <= i < at ==> in_order(#[trigger] before[i], name@),
        decreases list.len() - at,
    {
        assert(before[at as int] == list@[at as int]@);
        at += 1;
    }
    proof {
        if at < list.len() {
            assert(before[at as int] == list@[at as int]@);
            lemma_order_total(before[at as int], name@);
        }
        lemma_order_total(name@, name@);
        assert forall|i: int| at <= i < before.len() implies in_order(name@, #[trigger] before[i]) by {
            assert(in_order(before[at as int], before[i]));
            lemma_order_transitive(name@, before[at as int], before[i]);
        }
    }
    list.insert(at, name);
    let ghost after = text::texts(list@);
    assert(after =~= before.insert(at as int, name@));
    proof {
        vstd::seq_lib::to_multiset_insert(before, at as int, name@);
        assert forall|i: int, j: int| 0 <= i <= j < after.len() implies in_order(
            #[trigger] after[i],
            #[trigger] after[j],
        ) by {
            let p = if i < at { i } else { i - 1 };
            let q = if j < at { j } else { j - 1 };
            if i != at {
                assert(after[i] == before[p]);
            }
            if j != at {
                assert(after[j] == before[q]);
            }
        }
    }
}

/// The names of the models that are there, sorted.
pub fn discover_models(models_dir: &ModelsDir) -> (out: Vec<String>)
    ensures
        is_sorted(text::texts(out@)),
        text::texts(out@).to_multiset() == models_in(text::texts(models_dir.files@)).to_multiset(),
{
    let ghost files = text::texts(models_dir.files@);
    let mut out: Vec<String> = Vec::new();
    let mut i: usize = 0;
    proof {
        assert(files.take(0) =~= Seq::empty());
        assert(text::texts(out@) =~= models_in(files.take(0)));
    }
    while i < models_dir.files.len()
        invariant
            i <= models_dir.files.len(),
            files == text::texts(models_dir.files@),
            is_sorted(text::texts(out@)),
            text::texts(out@).to_multiset() == models_in(files.take(i as int)).to_multiset(),
        decreases models_dir.files.len() - i,
    {
        assert(files.take(i + 1).drop_last() =~= files.take(i as int));
        assert(files.take(i + 1).last() == models_dir.files@[i as int]@);
        match model_name(models_dir.files[i].as_str()) {
            Some(name) => {
                proof {
                    let had = models_in(files.take(i as int));
                    had.to_multiset_ensures();
                    assert(had.push(name@).to_multiset() =~= had.to_multiset().insert(name@));
                }
                insert_sorted(&mut out, name);
            },
            None => {},
        }
        i += 1;
    }
    assert(files.take(i as int) =~= files);
    out
}

/// What the service can do with the models that are there.
pub fn get_config(models_dir: &ModelsDir) -> (out: ConfigReport)
    ensures
        out.whisper_available,
        out.sherpa_diarize_available == diarize::can_diarize(models_dir),
        out.summarize_available == models_dir.holds("llamafile"@),
        is_sorted(text::texts(out.available_models@)),
        text::texts(out.available_models@).to_multiset() == models_in(
            text::texts(models_dir.files@),
        ).to_multiset(),
{
    ConfigReport {
        whisper_available: true,
        sherpa_diarize_available: diarize::models_available(models_dir),
        summarize_available: summarize::available(models_dir),
        available_models: discover_models(models_dir),
    }
}

/// The file of a model is listed under the name of the model, unless that name itself
/// starts or ends like a file.
pub proof fn model_files_name_their_model(model: Seq<char>)
    requires
        !text::occurs_at(model, "ggml-"@, 0),
        !ends_in(model, ".bin"@),
    ensures
        is_model_file("ggml-"@ + model + ".bin"@),
        model_in("ggml-"@ + model + ".bin"@) == model,
{
    reveal_strlit("ggml-");
    reveal_strlit(".bin");
    let head = "ggml-"@;
    let tail = ".bin"@;
    let file = head + model + tail;
    let rest = model + tail;
    assert(file.subrange(0, 5) =~= head);
    assert(file.subrange(file.len() - 4, file.len() as int) =~= tail);
    assert(file.skip(5) =~= rest);
    assert(!text::occurs_at(rest, head, 0)) by {
        if text::occurs_at(rest, head, 0) {
            let start = rest.subrange(0, 5);
            if model.len() >= 5 {
                assert(model.subrange(0, 5) =~= start);
            } else {
                let k = model.len() as int;
                assert(start[k] == rest[k]);
                assert(rest[k] == tail[0]);
                assert(start[k] == head[k]);
            }
        }
    }
    reveal_with_fuel(without_prefixes, 2);
    assert(without_prefixes(file, head) == rest);
    assert(rest.subrange(rest.len() - 4, rest.len() as int) =~= tail);
    assert(rest.take(rest.len() - 4) =~= model);
    reveal_with_fuel(without_suffixes, 2);
}

/// A model is listed exactly if one of the files is that of a model and names it, and as
/// often as there are such files.
pub proof fn models_are_listed_by_their_files(a: Seq<Seq<char>>, b: Seq<Seq<char>>, model: Seq<char>)
    ensures
        models_in(a + b) == models_in(a) + models_in(b),
        models_in(a).contains(model) <==> exists|i: int|
            0 <= i < a.len() && is_model_file(#[trigger] a[i]) && model_in(a[i]) == model,
        models_in(a).len() <= a.len(),
    decreases a.len() + b.len(),
{
    if b.len() > 0 {
        models_are_listed_by_their_files(a, b.drop_last(), model);
        assert((a + b).drop_last() =~= a + b.drop_last());
        assert((a + b).last() == b.last());
        assert(models_in(a + b) =~= models_in(a) + models_in(b));
    } else {
        assert(a + b =~= a);
        assert(models_in(a) + models_in(b) =~= models_in(a));
        if a.len() > 0 {
            let front = a.drop_last();
            models_are_listed_by_their_files(front, b, model);
            let had = models_in(front);
            let now = models_in(a);
            if now.contains(model) {
                let k = choose|k: int| 0 <= k < now.len() && now[k] == model;
                if k < had.len() {
                    assert(had[k] == model);
                    let i = choose|i: int|
                        0 <= i < front.len() && is_model_file(#[trigger] front[i]) && model_in(front[i])
                            == model;
                    assert(a[i] == front[i]);
                } else {
                    assert(is_model_file(a[a.len() - 1]) && model_in(a[a.len() - 1]) == model);
                }
            }
            if exists|i: int| 0 <= i < a.len() && is_model_file(#[trigger] a[i]) && model_in(a[i]) == model {
                let i = choose|i: int|
                    0 <= i < a.len() && is_model_file(#[trigger] a[i]) && model_in(a[i]) == model;
                if i < front.len() {
                    assert(front[i] == a[i]);
                    assert(had.contains(model));
                    let k = choose|k: int| 0 <= k < had.len() && had[k] == model;
                    assert(now[k] == model);
                } else {
                    assert(now[had.len() as int] == model);
                }
            }
        }
    }
}

/// A file is that of a model exactly if its name starts with `ggml-` and ends in `.bin`.
pub proof fn model_files_are_named_so(name: Seq<char>)
    ensures
        is_model_file(name) <==> name.len() >= 5 && name.take(5) == "ggml-"@ && name.skip(
            name.len() - 4,
        ) == ".bin"@,
{
    reveal_strlit("ggml-");
    reveal_strlit(".bin");
    if name.len() >= 5 {
        assert(name.take(5) =~= name.subrange(0, 5));
        assert(name.skip(name.len() - 4) =~= name.subrange(name.len() - 4, name.len() as int));
    }
}

/// Texts are ordered letter by letter: each before or after every other one, a text before
/// all that it starts, and otherwise by the first letter that differs.
pub proof fn texts_have_an_order(a: Seq<char>, b: Seq<char>, c: Seq<char>, x: char, y: char)
    ensures
        in_order(a, a + b),
        in_order(a, b) || in_order(b, a),
        in_order(a, b) && in_order(b, a) ==> a == b,
        in_order(a, b) && in_order(b, c) ==> in_order(a, c),
        x < y ==> in_order(a + seq![x] + b, a + seq![y] + c) && !in_order(
            a + seq![y] + c,
            a + seq![x] + b,
        ),
    decreases a.len(),
{
    if a.len() > 0 {
        let (a1, b1, c1) = (a.drop_first(), b.drop_first(), c.drop_first());
        assert((a + b).drop_first() =~= a1 + b);
        texts_have_an_order(a1, b, c, x, y);
        texts_have_an_order(a1, b1, c1, x, y);
        if in_order(a, b) && in_order(b, a) {
            assert(a =~= seq![a[0]] + a1);
            assert(b =~= seq![b[0]] + b1);
        }
        assert((a + seq![x] + b).drop_first() =~= a1 + seq![x] + b);
        assert((a + seq![y] + c).drop_first() =~= a1 + seq![y] + c);
    } else {
        if b.len() == 0 {
            assert(a =~= b);
        }
        let (l, r) = (a + seq![x] + b, a + seq![y] + c);
        assert(l[0] == x && r[0] == y);
    }
}

/// What is cut off in front is the prefix, as often as it stands there, and nothing else.
pub proof fn prefixes_are_cut_off(s: Seq<char>, p: Seq<char>)
    requires
        p.len() > 0,
    ensures
        without_prefixes(p + s, p) == without_prefixes(s, p),
        !text::occurs_at(s, p, 0) ==> without_prefixes(s, p) == s,
        without_suffixes(s + p, p) == without_suffixes(s, p),
        !ends_in(s, p) ==> without_suffixes(s, p) == s,
{
    assert((p + s).subrange(0, p.len() as int) =~= p);
    assert((p + s).skip(p.len() as int) =~= s);
    let n = s.len() as int;
    assert((s + p).subrange(n, n + p.len()) =~= p);
    assert((s + p).take(n) =~= s);
}

} // verus!
