//! The `Packages` index regenerated from a lockfile.
use crate::download::{basename, last_segment};
use crate::error::AptPrepError;
use crate::lockfile::{Lockfile, LockfilePackageEntry};
use crate::text::{push_char, sorted_unique, strictly_sorted, texts_of};
use debian_packaging::control::ControlFile;
use vstd::prelude::*;
use vstd::string::*;

verus! {

/// A control paragraph as its fields `(name, value)`, in order.
pub type Paragraph = Vec<(String, String)>;

pub type ParagraphView = Seq<(Seq<char>, Seq<char>)>;

pub open spec fn paragraph_view(p: Paragraph) -> ParagraphView {
    p@.map_values(|f: (String, String)| (f.0@, f.1@))
}

pub open spec fn paragraphs_view(ps: Seq<Paragraph>) -> Seq<ParagraphView> {
    ps.map_values(|p: Paragraph| paragraph_view(p))
}

/// The paragraphs debian-packaging's control-file parser reads from a text, where it accepts it.
pub uninterp spec fn parsed_paragraphs(text: Seq<char>) -> Option<Seq<ParagraphView>>;

/// Relies on `ControlFile::parse_str`: the paragraphs of a control text, each field as its
/// name and value, in order.
#[verifier::external_body]
fn parse_control_text(text: &str) -> (r: Option<Vec<Paragraph>>)
    ensures
        match r {
            Some(ps) => parsed_paragraphs(text@) == Some(paragraphs_view(ps@)),
            None => parsed_paragraphs(text@) is None,
        },
{
    ControlFile::parse_str(text).ok().map(|cf| {
        cf.paragraphs().map(|p| p.iter_fields().map(|f| (f.name().to_string(), f.value_str().to_string())).collect()).collect()
    })
}

/// A field as a control file line: `name: value` and a line break.
pub open spec fn field_text(f: (Seq<char>, Seq<char>)) -> Seq<char> {
    f.0 + seq![':', ' '] + f.1 + seq!['\n']
}

pub open spec fn paragraph_text(p: ParagraphView) -> Seq<char>
    decreases p.len(),
{
    if p.len() == 0 {
        Seq::empty()
    } else {
        paragraph_text(p.drop_last()) + field_text(p.last())
    }
}

/// Paragraphs as a control file: each paragraph's fields, then an empty line (as
/// debian-packaging's `ControlFile::write` writes them).
pub open spec fn rendered(ps: Seq<ParagraphView>) -> Seq<char>
    decreases ps.len(),
{
    if ps.len() == 0 {
        Seq::empty()
    } else {
        rendered(ps.drop_last()) + paragraph_text(ps.last()) + seq!['\n']
    }
}

/// The control-file text of paragraphs.
pub fn render_paragraphs(ps: &Vec<Paragraph>) -> (r: String)
    ensures
        r@ == rendered(paragraphs_view(ps@)),
{
    let mut r = String::new();
    let mut i: usize = 0;
    assert(paragraphs_view(ps@).subrange(0, 0) =~= Seq::<ParagraphView>::empty());
    while i < ps.len()
        invariant
            i <= ps@.len(),
            r@ == rendered(paragraphs_view(ps@).subrange(0, i as int)),
        decreases ps.len() - i,
    {
        let p = &ps[i];
        let ghost start = r@;
        let mut j: usize = 0;
        assert(paragraph_view(*p).subrange(0, 0) =~= Seq::<(Seq<char>, Seq<char>)>::empty());
        assert(start =~= start + paragraph_text(paragraph_view(*p).subrange(0, 0)));
        while j < p.len()
            invariant
                j <= p@.len(),
                r@ == start + paragraph_text(paragraph_view(*p).subrange(0, j as int)),
            decreases p.len() - j,
        {
            r.append(p[j].0.as_str());
            push_char(&mut r, ':');
            push_char(&mut r, ' ');
            r.append(p[j].1.as_str());
            push_char(&mut r, '\n');
            assert(paragraph_view(*p).subrange(0, j + 1).drop_last() =~= paragraph_view(*p).subrange(0, j as int));
            assert(r@ =~= start + paragraph_text(paragraph_view(*p).subrange(0, j + 1)));
            j = j + 1;
        }
        assert(paragraph_view(*p).subrange(0, j as int) =~= paragraph_view(*p));
        push_char(&mut r, '\n');
        assert(paragraphs_view(ps@).subrange(0, i + 1).drop_last() =~= paragraphs_view(ps@).subrange(0, i as int));
        assert(r@ =~= rendered(paragraphs_view(ps@).subrange(0, i + 1)));
        i = i + 1;
    }
    assert(paragraphs_view(ps@).subrange(0, i as int) =~= paragraphs_view(ps@));
    r
}

/// What `str::to_lowercase` makes of a text.
pub uninterp spec fn lower_of(s: Seq<char>) -> Seq<char>;

/// Relies on `str::to_lowercase`: the result depends on the characters alone.
#[verifier::external_body]
fn lowercase(s: &str) -> (r: String)
    ensures
        r@ == lower_of(s@),
{
    s.to_lowercase()
}

/// Field names compare as debian-packaging compares them: by their lower-case forms.
pub open spec fn same_name(a: Seq<char>, b: Seq<char>) -> bool {
    lower_of(a) == lower_of(b)
}

fn names_match(a: &str, b: &str) -> (r: bool)
    ensures
        r == same_name(a@, b@),
{
    lowercase(a) == lowercase(b)
}

/// The fields other than those named `name`.
pub open spec fn without_field(p: ParagraphView, name: Seq<char>) -> ParagraphView
    decreases p.len(),
{
    if p.len() == 0 {
        Seq::empty()
    } else {
        let rest = without_field(p.drop_last(), name);
        if same_name(p.last().0, name) { rest } else { rest.push(p.last()) }
    }
}

/// The paragraph with the field `name` set to `value`: other fields of that name are
/// dropped and the field goes last.
pub open spec fn with_field(p: ParagraphView, name: Seq<char>, value: Seq<char>) -> ParagraphView {
    without_field(p, name).push((name, value))
}

/// Sets field `name` to `value`, as debian-packaging's `ControlParagraph::set_field` does.
pub fn set_field(p: &mut Paragraph, name: &str, value: String)
    ensures
        paragraph_view(*final(p)) == with_field(paragraph_view(*old(p)), name@, value@),
{
    let mut kept: Paragraph = Vec::new();
    let mut i: usize = 0;
    assert(paragraph_view(kept) =~= Seq::empty());
    while i < p.len()
        invariant
            i <= p@.len(),
            paragraph_view(kept) == without_field(paragraph_view(*p).subrange(0, i as int), name@),
        decreases p.len() - i,
    {
        let ghost sub = paragraph_view(*p).subrange(0, i + 1);
        assert(sub.drop_last() =~= paragraph_view(*p).subrange(0, i as int));
        if !names_match(p[i].0.as_str(), name) {
            let ghost before = kept@;
            kept.push((p[i].0.clone(), p[i].1.clone()));
            assert(paragraph_view(kept) =~= paragraph_view_of(before).push((p@[i as int].0@, p@[i as int].1@)));
        }
        i = i + 1;
    }
    assert(paragraph_view(*p).subrange(0, i as int) =~= paragraph_view(*p));
    let ghost before = kept@;
    kept.push((name.to_string(), value));
    assert(paragraph_view(kept) =~= paragraph_view_of(before).push((name@, value@)));
    *p = kept;
}

pub open spec fn paragraph_view_of(p: Seq<(String, String)>) -> ParagraphView {
    p.map_values(|f: (String, String)| (f.0@, f.1@))
}

proof fn lemma_without_field_idempotent(p: ParagraphView, name: Seq<char>)
    ensures
        without_field(without_field(p, name), name) == without_field(p, name),
        forall|i: int| 0 <= i < without_field(p, name).len() ==> !same_name(#[trigger] without_field(p, name)[i].0, name),
    decreases p.len(),
{
    if p.len() > 0 {
        lemma_without_field_idempotent(p.drop_last(), name);
        let rest = without_field(p.drop_last(), name);
        if !same_name(p.last().0, name) {
            let q = rest.push(p.last());
            assert(q.drop_last() =~= rest);
        }
    }
}

/// Rewriting a paragraph's `Filename` twice to the same value leaves what once did.
pub proof fn lemma_rewrite_idempotent(p: ParagraphView, name: Seq<char>, value: Seq<char>)
    ensures
        with_field(with_field(p, name, value), name, value) == with_field(p, name, value),
{
    lemma_without_field_idempotent(p, name);
    let w = without_field(p, name);
    let q = w.push((name, value));
    assert(q.drop_last() =~= w);
    assert(same_name(name, name));
    assert(without_field(q, name) == without_field(w, name));
}

pub open spec fn filename_field() -> Seq<char> {
    seq!['F', 'i', 'l', 'e', 'n', 'a', 'm', 'e']
}

/// `./` and the last segment of the download URL.
pub open spec fn local_filename(url: Seq<char>) -> Seq<char> {
    seq!['.', '/'] + last_segment(url)
}

/// The entry's stored paragraphs with `Filename` pointing into the mirror root.
pub open spec fn rewritten(e: LockfilePackageEntry) -> Seq<ParagraphView> {
    parsed_paragraphs(e.control_file@).unwrap().map_values(
        |p: ParagraphView| with_field(p, filename_field(), local_filename(e.download_url@)),
    )
}

/// The paragraphs of an entry for the index; `None` where its stored text does not parse.
pub fn rewrite_entry(e: &LockfilePackageEntry) -> (r: Option<Vec<Paragraph>>)
    ensures
        r is Some <==> parsed_paragraphs(e.control_file@) is Some,
        r matches Some(ps) ==> paragraphs_view(ps@) == rewritten(*e),
{
    let mut ps = match parse_control_text(e.control_file.as_str()) {
        Some(ps) => ps,
        None => return None,
    };
    let mut local = String::new();
    push_char(&mut local, '.');
    push_char(&mut local, '/');
    let base = basename(e.download_url.as_str());
    local.append(base.as_str());
    proof {
        reveal_strlit("Filename");
        assert("Filename"@ =~= filename_field());
        assert(local@ =~= local_filename(e.download_url@));
    }
    let ghost parsed = paragraphs_view(ps@);
    let ghost n = ps@.len();
    let mut out: Vec<Paragraph> = Vec::new();
    while ps.len() > 0
        invariant
            out@.len() + ps@.len() == n,
            parsed.len() == n,
            forall|k: int| 0 <= k < ps@.len() ==> paragraph_view(#[trigger] ps@[k]) == parsed[k + out@.len()],
            local@ == local_filename(e.download_url@),
            forall|k: int| 0 <= k < out@.len() ==> paragraph_view(#[trigger] out@[k]) == with_field(parsed[k], filename_field(), local@),
        decreases ps.len(),
    {
        let ghost before = ps@;
        let mut p = ps.remove(0);
        assert(paragraph_view(p) == parsed[out@.len() as int]);
        assert forall|k: int| 0 <= k < ps@.len() implies paragraph_view(#[trigger] ps@[k]) == parsed[k + out@.len() + 1] by {
            assert(ps@[k] == before[k + 1]);
        }
        proof {
            reveal_strlit("Filename");
            assert("Filename"@ =~= filename_field());
        }
        let ghost k0 = out@.len() as int;
        set_field(&mut p, "Filename", local.clone());
        out.push(p);
        assert(paragraph_view(out@[k0]) == with_field(parsed[k0], filename_field(), local@));
    }
    assert(paragraphs_view(out@) =~= rewritten(*e));
    Some(out)
}


/// The rewritten paragraphs of the entries among the first `n` named `name`, in order.
pub open spec fn paras_for_name(pk: Seq<(String, LockfilePackageEntry)>, name: Seq<char>, n: int) -> Seq<ParagraphView>
    decreases n,
{
    if n <= 0 {
        Seq::empty()
    } else {
        paras_for_name(pk, name, n - 1) + if pk[n - 1].1.name@ == name { rewritten(pk[n - 1].1) } else { Seq::empty() }
    }
}

/// The index's paragraphs: by package name in the order of `names`, then in lockfile order.
pub open spec fn index_paragraphs(pk: Seq<(String, LockfilePackageEntry)>, names: Seq<String>, n: int) -> Seq<ParagraphView>
    decreases n,
{
    if n <= 0 {
        Seq::empty()
    } else {
        index_paragraphs(pk, names, n - 1) + paras_for_name(pk, names[n - 1]@, pk.len() as int)
    }
}

pub open spec fn entry_names(pk: Seq<(String, LockfilePackageEntry)>) -> Set<Seq<char>> {
    Set::new(|n: Seq<char>| exists|i: int| 0 <= i < pk.len() && (#[trigger] pk[i]).1.name@ == n)
}

/// The text of the `Packages` index of a lockfile: every entry's stored paragraphs with
/// `Filename` set to `./` and the last segment of its download URL, by ascending package
/// name. Fails where a stored paragraph text does not parse.
pub fn generate_packages_file_from_lockfile(lockfile: &Lockfile) -> (r: Result<String, AptPrepError>)
    ensures
        r is Ok <==> forall|i: int| 0 <= i < lockfile.packages@.len() ==> (#[trigger] parsed_paragraphs(lockfile.packages@[i].1.control_file@)) is Some,
        r matches Ok(t) ==> exists|names: Seq<String>| strictly_sorted(names) && texts_of(names) == entry_names(lockfile.packages@)
            && t@ == rendered(#[trigger] index_paragraphs(lockfile.packages@, names, names.len() as int)),
{
    let pk = &lockfile.packages;
    let mut all_names: Vec<String> = Vec::new();
    let mut i: usize = 0;
    while i < pk.len()
        invariant
            i <= pk@.len(),
            all_names@.len() == i,
            forall|k: int| 0 <= k < i ==> (#[trigger] all_names@[k])@ == pk@[k].1.name@,
        decreases pk.len() - i,
    {
        all_names.push(pk[i].1.name.clone());
        i = i + 1;
    }
    let names = sorted_unique(&all_names);
    proof {
        assert(texts_of(all_names@) =~= entry_names(pk@)) by {
            assert forall|n: Seq<char>| entry_names(pk@).contains(n) implies texts_of(all_names@).contains(n) by {
                let k = choose|k: int| 0 <= k < pk@.len() && (#[trigger] pk@[k]).1.name@ == n;
                assert(all_names@[k]@ == n);
            }
        }
    }
    let mut doc: Vec<Paragraph> = Vec::new();
    let mut j: usize = 0;
    assert(paragraphs_view(doc@) =~= Seq::empty());
    while j < names.len()
        invariant
            pk@ == lockfile.packages@,
            j <= names@.len(),
            paragraphs_view(doc@) == index_paragraphs(pk@, names@, j as int),
            forall|a: int, b: int| 0 <= a < j && 0 <= b < pk@.len() && pk@[b].1.name@ == names@[a]@
                ==> (#[trigger] parsed_paragraphs(pk@[b].1.control_file@)) is Some && #[trigger] names@[a] == names@[a],
        decreases names.len() - j,
    {
        let ghost start = paragraphs_view(doc@);
        let mut i: usize = 0;
        assert(start =~= start + paras_for_name(pk@, names@[j as int]@, 0));
        while i < pk.len()
            invariant
                pk@ == lockfile.packages@,
                j < names@.len(),
                i <= pk@.len(),
                paragraphs_view(doc@) == start + paras_for_name(pk@, names@[j as int]@, i as int),
                forall|b: int| 0 <= b < i && pk@[b].1.name@ == names@[j as int]@ ==> (#[trigger] parsed_paragraphs(pk@[b].1.control_file@)) is Some,
            decreases pk.len() - i,
        {
            if pk[i].1.name == names[j] {
                match rewrite_entry(&pk[i].1) {
                    None => {
                        assert(parsed_paragraphs(lockfile.packages@[i as int].1.control_file@) is None);
                        return Err(AptPrepError::Download { message: "Invalid control paragraph in lockfile".to_string() });
                    },
                    Some(ps) => {
                        let ghost before = paragraphs_view(doc@);
                        let mut ps = ps;
                        let ghost added = paragraphs_view(ps@);
                        doc.append(&mut ps);
                        assert(paragraphs_view(doc@) =~= before + added);
                    },
                }
            } else {
                assert(paras_for_name(pk@, names@[j as int]@, i + 1) =~= paras_for_name(pk@, names@[j as int]@, i as int));
            }
            i = i + 1;
        }
        j = j + 1;
    }
    proof {
        assert forall|b: int| 0 <= b < pk@.len() implies (#[trigger] parsed_paragraphs(pk@[b].1.control_file@)) is Some by {
            assert(entry_names(pk@).contains(pk@[b].1.name@));
            assert(texts_of(names@).contains(pk@[b].1.name@));
            let a = choose|a: int| 0 <= a < names@.len() && names@[a]@ == pk@[b].1.name@;
            assert(names@[a] == names@[a]);
        }
    }
    Ok(render_paragraphs(&doc))
}

} // verus!
