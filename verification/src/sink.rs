//! The result sink: an append-only file of comma-separated rows
//! `id,name,has_pom`, one line per qualifying repository, with a header line
//! written once when the file is first created. Fields containing a comma or
//! a quote are quoted with doubled inner quotes; a row is always a single
//! line, so fields never contain line breaks.
use crate::CsvRepo;
use crate::strutil;
use vstd::prelude::*;

verus! {

/// Characters that force a field to be quoted.
pub open spec fn is_quotable(c: char) -> bool {
    c == ',' || c == '"'
}

pub open spec fn has_quotable(f: Seq<char>) -> bool {
    exists|i: int| 0 <= i < f.len() && is_quotable(#[trigger] f[i])
}

/// A value that can stand in a field of this line-oriented format.
pub open spec fn line_free(f: Seq<char>) -> bool {
    forall|i: int| 0 <= i < f.len() ==> #[trigger] f[i] != '\n' && f[i] != '\r'
}

/// A field's content with every quote doubled.
pub open spec fn escape_quotes(f: Seq<char>) -> Seq<char>
    decreases f.len(),
{
    if f.len() == 0 {
        Seq::empty()
    } else {
        escape_quotes(f.drop_last()) + (if f.last() == '"' {
            seq!['"', '"']
        } else {
            seq![f.last()]
        })
    }
}

/// The on-disk form of one field: quoted exactly when it must be.
pub open spec fn csv_field(f: Seq<char>) -> Seq<char> {
    if has_quotable(f) {
        seq!['"'] + escape_quotes(f) + seq!['"']
    } else {
        f
    }
}

pub open spec fn bool_str(b: bool) -> Seq<char> {
    if b {
        "true"@
    } else {
        "false"@
    }
}

/// One data row without its terminating newline.
pub open spec fn row_body(id: Seq<char>, name: Seq<char>, has_pom: bool) -> Seq<char> {
    csv_field(id) + seq![','] + csv_field(name) + seq![','] + bool_str(has_pom)
}

/// One data row as appended to the file.
pub open spec fn csv_row(id: Seq<char>, name: Seq<char>, has_pom: bool) -> Seq<char> {
    row_body(id, name, has_pom) + seq!['\n']
}

pub open spec fn csv_header() -> Seq<char> {
    "id,name,has_pom\n"@
}

pub proof fn lemma_escape_append(a: Seq<char>, b: Seq<char>)
    ensures
        escape_quotes(a + b) == escape_quotes(a) + escape_quotes(b),
    decreases b.len(),
{
    if b.len() == 0 {
        assert(a + b =~= a);
        assert(escape_quotes(b) == Seq::<char>::empty());
        assert(escape_quotes(a) + escape_quotes(b) =~= escape_quotes(a));
    } else {
        let s = a + b;
        let tail: Seq<char> = if b.last() == '"' {
            seq!['"', '"']
        } else {
            seq![b.last()]
        };
        assert(s.drop_last() =~= a + b.drop_last());
        assert(s.last() == b.last());
        lemma_escape_append(a, b.drop_last());
        assert(escape_quotes(s) == (escape_quotes(a) + escape_quotes(b.drop_last())) + tail);
        assert((escape_quotes(a) + escape_quotes(b.drop_last())) + tail =~= escape_quotes(a) + (
        escape_quotes(b.drop_last()) + tail));
    }
}

/// Escaping from the front: the head character comes first.
pub proof fn lemma_escape_first(f: Seq<char>)
    requires
        f.len() > 0,
    ensures
        escape_quotes(f) == (if f[0] == '"' {
            seq!['"', '"']
        } else {
            seq![f[0]]
        }) + escape_quotes(f.drop_first()),
{
    let head = seq![f[0]];
    assert(f =~= head + f.drop_first());
    lemma_escape_append(head, f.drop_first());
    assert(head.drop_last() =~= Seq::<char>::empty());
    assert(escape_quotes(head.drop_last()) == Seq::<char>::empty());
    assert(head.last() == f[0]);
    assert(escape_quotes(head) =~= (if f[0] == '"' {
        seq!['"', '"']
    } else {
        seq![f[0]]
    }));
}

/// Escaping keeps every character except that quotes are doubled, so a
/// line-free field escapes to a line-free sequence.
pub proof fn lemma_escape_line_free(f: Seq<char>)
    requires
        line_free(f),
    ensures
        line_free(escape_quotes(f)),
    decreases f.len(),
{
    if f.len() > 0 {
        assert(line_free(f.drop_last()));
        lemma_escape_line_free(f.drop_last());
        assert(f.last() == f[f.len() - 1]);
    }
}

/// A data row never contains a newline before its terminator.
pub proof fn lemma_row_body_line_free(id: Seq<char>, name: Seq<char>, has_pom: bool)
    requires
        line_free(id),
        line_free(name),
    ensures
        line_free(row_body(id, name, has_pom)),
{
    lemma_escape_line_free(id);
    lemma_escape_line_free(name);
    reveal_strlit("true");
    reveal_strlit("false");
    assert(line_free(bool_str(has_pom)));
    assert(line_free(csv_field(id)));
    assert(line_free(csv_field(name)));
}

/// Renders one field, quoting it when it holds a comma or a quote.
pub fn render_field(f: &str) -> (r: String)
    requires
        line_free(f@),
    ensures
        r@ == csv_field(f@),
{
    let n = f.unicode_len();
    if !field_needs_quote(f) {
        return f.to_owned();
    }
    proof {
        reveal_strlit("\"");
    }
    let mut out = String::new();
    out.append("\"");
    let mut i: usize = 0;
    while i < n
        invariant
            n == f@.len(),
            i <= n,
            out@ =~= seq!['"'] + escape_quotes(f@.subrange(0, i as int)),
        decreases n - i,
    {
        let ghost sub = f@.subrange(0, i as int);
        let ghost ext = f@.subrange(0, i + 1);
        proof {
            reveal_strlit("\"");
            assert(ext.drop_last() =~= sub);
            assert(ext.last() == f@[i as int]);
        }
        if f.get_char(i) == '"' {
            out.append("\"");
            out.append("\"");
        } else {
            let piece = f.substring_char(i, i + 1);
            out.append(piece);
        }
        assert(out@ =~= seq!['"'] + escape_quotes(ext));
        i += 1;
    }
    proof {
        reveal_strlit("\"");
        assert(f@.subrange(0, n as int) =~= f@);
    }
    out.append("\"");
    assert(out@ =~= seq!['"'] + escape_quotes(f@) + seq!['"']);
    out
}

/// Renders one data row, including its terminating newline.
pub fn render_row(repo: &CsvRepo) -> (r: String)
    requires
        line_free(repo.id@),
        line_free(repo.name@),
    ensures
        r@ == csv_row(repo.id@, repo.name@, repo.has_pom),
{
    let mut out = render_field(repo.id.as_str());
    out.append(",");
    let name_field = render_field(repo.name.as_str());
    out.append(name_field.as_str());
    out.append(",");
    if repo.has_pom {
        out.append("true");
    } else {
        out.append("false");
    }
    out.append("\n");
    proof {
        reveal_strlit(",");
        reveal_strlit("\n");
        assert(out@ =~= csv_row(repo.id@, repo.name@, repo.has_pom));
    }
    out
}

/// The header line, written once when the sink file is created.
pub fn render_header() -> (r: String)
    ensures
        r@ == csv_header(),
{
    "id,name,has_pom\n".to_owned()
}

/// Spec mirror of the quoted-field scan. `i` is just past the opening
/// quote; the result is the field content and the position just past the
/// closing quote. Line breaks are not representable inside a field.
pub open spec fn scan_quoted(s: Seq<char>, i: int) -> Option<(Seq<char>, int)>
    decreases s.len() - i,
{
    if i >= s.len() {
        None
    } else if s[i] == '\n' || s[i] == '\r' {
        None
    } else if s[i] != '"' {
        match scan_quoted(s, i + 1) {
            Some(fj) => Some((seq![s[i]] + fj.0, fj.1)),
            None => None,
        }
    } else if i + 1 < s.len() && s[i + 1] == '"' {
        match scan_quoted(s, i + 2) {
            Some(fj) => Some((seq!['"'] + fj.0, fj.1)),
            None => None,
        }
    } else {
        Some((Seq::empty(), i + 1))
    }
}

/// Spec mirror of the unquoted-field scan: plain characters up to the next
/// comma or the end; a quote or line break here makes the row invalid.
pub open spec fn scan_raw(s: Seq<char>, i: int) -> Option<(Seq<char>, int)>
    decreases s.len() - i,
{
    if i >= s.len() {
        Some((Seq::empty(), i))
    } else if s[i] == ',' {
        Some((Seq::empty(), i))
    } else if s[i] == '"' || s[i] == '\r' || s[i] == '\n' {
        None
    } else {
        match scan_raw(s, i + 1) {
            Some(fj) => Some((seq![s[i]] + fj.0, fj.1)),
            None => None,
        }
    }
}

/// Spec mirror of the field parse: a quoted field must actually need its
/// quotes, so that every accepted field has exactly one on-disk form.
pub open spec fn spec_parse_field(s: Seq<char>, i: int) -> Option<(Seq<char>, int)> {
    if 0 <= i < s.len() && s[i] == '"' {
        match scan_quoted(s, i + 1) {
            Some(fj) => if has_quotable(fj.0) {
                Some(fj)
            } else {
                None
            },
            None => None,
        }
    } else {
        scan_raw(s, i)
    }
}

/// Spec mirror of the row parse: two fields and a boolean, comma-separated.
pub open spec fn spec_parse_row(s: Seq<char>) -> Option<(Seq<char>, Seq<char>, bool)> {
    match spec_parse_field(s, 0) {
        Some(idj) => if idj.1 < s.len() && s[idj.1] == ',' {
            match spec_parse_field(s, idj.1 + 1) {
                Some(namek) => if namek.1 < s.len() && s[namek.1] == ',' {
                    let rest = s.subrange(namek.1 + 1, s.len() as int);
                    if rest == "true"@ {
                        Some((idj.0, namek.0, true))
                    } else if rest == "false"@ {
                        Some((idj.0, namek.0, false))
                    } else {
                        None
                    }
                } else {
                    None
                },
                None => None,
            }
        } else {
            None
        },
        None => None,
    }
}

pub proof fn lemma_scan_raw_sound(s: Seq<char>, i: int)
    requires
        0 <= i <= s.len(),
    ensures
        match scan_raw(s, i) {
            Some(fj) => i <= fj.1 <= s.len() && fj.0 == s.subrange(i, fj.1) && !has_quotable(fj.0)
                && line_free(fj.0) && (fj.1 == s.len() || s[fj.1] == ','),
            None => true,
        },
    decreases s.len() - i,
{
    if i >= s.len() || s[i] == ',' {
        assert(s.subrange(i, i) =~= Seq::<char>::empty());
    } else if s[i] == '"' || s[i] == '\r' || s[i] == '\n' {
    } else {
        lemma_scan_raw_sound(s, i + 1);
        match scan_raw(s, i + 1) {
            Some(fj) => {
                assert(seq![s[i]] + fj.0 =~= s.subrange(i, fj.1)) by {
                    assert(fj.0 == s.subrange(i + 1, fj.1));
                }
                let g = seq![s[i]] + fj.0;
                assert(!has_quotable(g)) by {
                    assert forall|k: int| 0 <= k < g.len() implies !is_quotable(#[trigger] g[k]) by {
                        if k == 0 {
                        } else {
                            assert(g[k] == fj.0[k - 1]);
                            assert(!is_quotable(fj.0[k - 1])) by {
                                if is_quotable(fj.0[k - 1]) {
                                    assert(has_quotable(fj.0));
                                }
                            }
                        }
                    }
                    if has_quotable(g) {
                        let w = choose|w: int| 0 <= w < g.len() && is_quotable(g[w]);
                    }
                }
                assert(line_free(g)) by {
                    assert forall|k: int| 0 <= k < g.len() implies #[trigger] g[k] != '\n' && g[k]
                        != '\r' by {
                        if k > 0 {
                            assert(g[k] == fj.0[k - 1]);
                        }
                    }
                }
            },
            None => {},
        }
    }
}

pub proof fn lemma_scan_quoted_sound(s: Seq<char>, i: int)
    requires
        0 <= i,
    ensures
        match scan_quoted(s, i) {
            Some(fj) => i < fj.1 <= s.len() && s.subrange(i, fj.1) == escape_quotes(fj.0) + seq![
                '"',
            ] && line_free(fj.0),
            None => true,
        },
    decreases s.len() - i,
{
    if i >= s.len() || s[i] == '\n' || s[i] == '\r' {
    } else if s[i] != '"' {
        lemma_scan_quoted_sound(s, i + 1);
        match scan_quoted(s, i + 1) {
            Some(fj) => {
                let g = seq![s[i]] + fj.0;
                assert(g[0] == s[i]);
                assert(g.drop_first() =~= fj.0);
                lemma_escape_first(g);
                assert(escape_quotes(g) == seq![s[i]] + escape_quotes(fj.0));
                assert(s.subrange(i, fj.1) =~= seq![s[i]] + s.subrange(i + 1, fj.1));
                assert(seq![s[i]] + (escape_quotes(fj.0) + seq!['"']) =~= (seq![s[i]]
                    + escape_quotes(fj.0)) + seq!['"']);
                assert(line_free(g)) by {
                    assert forall|k: int| 0 <= k < g.len() implies #[trigger] g[k] != '\n' && g[k]
                        != '\r' by {
                        if k > 0 {
                            assert(g[k] == fj.0[k - 1]);
                        }
                    }
                }
            },
            None => {},
        }
    } else if i + 1 < s.len() && s[i + 1] == '"' {
        lemma_scan_quoted_sound(s, i + 2);
        match scan_quoted(s, i + 2) {
            Some(fj) => {
                let g = seq!['"'] + fj.0;
                assert(g[0] == '"');
                assert(g.drop_first() =~= fj.0);
                lemma_escape_first(g);
                assert(escape_quotes(g) == seq!['"', '"'] + escape_quotes(fj.0));
                assert(s.subrange(i, fj.1) =~= seq![s[i], s[i + 1]] + s.subrange(i + 2, fj.1));
                assert(seq![s[i], s[i + 1]] =~= seq!['"', '"']);
                assert(seq!['"', '"'] + (escape_quotes(fj.0) + seq!['"']) =~= (seq!['"', '"']
                    + escape_quotes(fj.0)) + seq!['"']);
                assert(line_free(g)) by {
                    assert forall|k: int| 0 <= k < g.len() implies #[trigger] g[k] != '\n' && g[k]
                        != '\r' by {
                        if k > 0 {
                            assert(g[k] == fj.0[k - 1]);
                        }
                    }
                }
            },
            None => {},
        }
    } else {
        assert(s.subrange(i, i + 1) =~= seq![s[i]]);
        assert(escape_quotes(Seq::<char>::empty()) + seq!['"'] =~= seq!['"']);
    }
}

pub proof fn lemma_parse_field_sound(s: Seq<char>, i: int)
    requires
        0 <= i <= s.len(),
    ensures
        match spec_parse_field(s, i) {
            Some(fj) => i <= fj.1 <= s.len() && s.subrange(i, fj.1) == csv_field(fj.0)
                && line_free(fj.0),
            None => true,
        },
{
    if 0 <= i < s.len() && s[i] == '"' {
        lemma_scan_quoted_sound(s, i + 1);
        match scan_quoted(s, i + 1) {
            Some(fj) => {
                if has_quotable(fj.0) {
                    assert(s.subrange(i, fj.1) =~= seq![s[i]] + s.subrange(i + 1, fj.1));
                    assert(seq!['"'] + (escape_quotes(fj.0) + seq!['"']) =~= seq!['"']
                        + escape_quotes(fj.0) + seq!['"']);
                }
            },
            None => {},
        }
    } else {
        lemma_scan_raw_sound(s, i);
    }
}

pub proof fn lemma_parse_row_sound(s: Seq<char>)
    ensures
        match spec_parse_row(s) {
            Some(t) => s == row_body(t.0, t.1, t.2) && line_free(t.0) && line_free(t.1),
            None => true,
        },
{
    lemma_parse_field_sound(s, 0);
    match spec_parse_field(s, 0) {
        Some(idj) => {
            if idj.1 < s.len() && s[idj.1] == ',' {
                lemma_parse_field_sound(s, idj.1 + 1);
                match spec_parse_field(s, idj.1 + 1) {
                    Some(namek) => {
                        if namek.1 < s.len() && s[namek.1] == ',' {
                            let rest = s.subrange(namek.1 + 1, s.len() as int);
                            if rest == "true"@ || rest == "false"@ {
                                assert(s =~= s.subrange(0, idj.1) + seq![s[idj.1]] + s.subrange(
                                    idj.1 + 1,
                                    namek.1,
                                ) + seq![s[namek.1]] + rest);
                            }
                        }
                    },
                    None => {},
                }
            }
        },
        None => {},
    }
}

pub proof fn lemma_scan_raw_complete(s: Seq<char>, i: int, f: Seq<char>)
    requires
        0 <= i,
        i + f.len() <= s.len(),
        s.subrange(i, i + f.len()) == f,
        !has_quotable(f),
        line_free(f),
        i + f.len() == s.len() || s[i + f.len()] == ',',
    ensures
        scan_raw(s, i) == Some((f, i + f.len())),
    decreases f.len(),
{
    if f.len() == 0 {
    } else {
        assert(s[i] == f[0]) by {
            assert(s.subrange(i, i + f.len())[0] == s[i]);
        }
        assert(!is_quotable(f[0]) && f[0] != '\n' && f[0] != '\r') by {
            if is_quotable(f[0]) {
                assert(has_quotable(f));
            }
        }
        let rest = f.drop_first();
        assert(s.subrange(i + 1, i + 1 + rest.len()) =~= rest) by {
            assert(forall|k: int|
                0 <= k < rest.len() ==> s.subrange(i, i + f.len())[k + 1] == #[trigger] rest[k]);
        }
        assert(!has_quotable(rest)) by {
            if has_quotable(rest) {
                let w = choose|w: int| 0 <= w < rest.len() && is_quotable(rest[w]);
                assert(f[w + 1] == rest[w]);
                assert(has_quotable(f));
            }
        }
        assert(line_free(rest)) by {
            assert(forall|k: int| 0 <= k < rest.len() ==> #[trigger] rest[k] == f[k + 1]);
        }
        lemma_scan_raw_complete(s, i + 1, rest);
        assert(seq![s[i]] + rest =~= f);
    }
}

pub proof fn lemma_scan_quoted_complete(s: Seq<char>, i: int, f: Seq<char>)
    requires
        0 <= i,
        i + escape_quotes(f).len() + 1 <= s.len(),
        s.subrange(i, i + escape_quotes(f).len() + 1) == escape_quotes(f) + seq!['"'],
        line_free(f),
        i + escape_quotes(f).len() + 1 == s.len() || s[i + escape_quotes(f).len() + 1] != '"',
    ensures
        scan_quoted(s, i) == Some((f, i + escape_quotes(f).len() + 1)),
    decreases f.len(),
{
    let esc = escape_quotes(f);
    let region = s.subrange(i, i + esc.len() + 1);
    if f.len() == 0 {
        assert(esc.len() == 0);
        assert(s[i] == '"') by {
            assert(region[0] == s[i]);
            assert((escape_quotes(f) + seq!['"'])[0] == '"');
        }
    } else {
        lemma_escape_first(f);
        let rest = f.drop_first();
        let esc_rest = escape_quotes(rest);
        assert(line_free(rest)) by {
            assert(forall|k: int| 0 <= k < rest.len() ==> #[trigger] rest[k] == f[k + 1]);
        }
        assert(f[0] != '\n' && f[0] != '\r');
        if f[0] == '"' {
            assert(esc == seq!['"', '"'] + esc_rest);
            assert(s[i] == '"' && s[i + 1] == '"') by {
                assert(region[0] == s[i] && region[1] == s[i + 1]);
                assert((esc + seq!['"'])[0] == '"' && (esc + seq!['"'])[1] == '"');
            }
            assert(i + 1 < s.len());
            assert(s.subrange(i + 2, i + 2 + esc_rest.len() + 1) =~= esc_rest + seq!['"']) by {
                assert(forall|k: int|
                    0 <= k < esc_rest.len() + 1 ==> region[k + 2] == #[trigger] (esc_rest + seq![
                        '"',
                    ])[k]);
            }
            lemma_scan_quoted_complete(s, i + 2, rest);
            assert(seq!['"'] + rest =~= f);
        } else {
            assert(esc == seq![f[0]] + esc_rest);
            assert(s[i] == f[0]) by {
                assert(region[0] == s[i]);
                assert((esc + seq!['"'])[0] == f[0]);
            }
            assert(s.subrange(i + 1, i + 1 + esc_rest.len() + 1) =~= esc_rest + seq!['"']) by {
                assert(forall|k: int|
                    0 <= k < esc_rest.len() + 1 ==> region[k + 1] == #[trigger] (esc_rest + seq![
                        '"',
                    ])[k]);
            }
            lemma_scan_quoted_complete(s, i + 1, rest);
            assert(seq![s[i]] + rest =~= f);
        }
    }
}

pub proof fn lemma_parse_field_complete(s: Seq<char>, i: int, f: Seq<char>)
    requires
        0 <= i,
        i + csv_field(f).len() <= s.len(),
        s.subrange(i, i + csv_field(f).len()) == csv_field(f),
        line_free(f),
        i + csv_field(f).len() == s.len() || s[i + csv_field(f).len()] == ',',
    ensures
        spec_parse_field(s, i) == Some((f, i + csv_field(f).len())),
{
    let cf = csv_field(f);
    let region = s.subrange(i, i + cf.len());
    if has_quotable(f) {
        let esc = escape_quotes(f);
        assert(cf == seq!['"'] + esc + seq!['"']);
        assert(s[i] == '"') by {
            assert(region[0] == s[i]);
            assert(cf[0] == '"');
        }
        assert(i < s.len());
        assert(s.subrange(i + 1, i + 1 + esc.len() + 1) =~= esc + seq!['"']) by {
            assert(forall|k: int|
                0 <= k < esc.len() + 1 ==> region[k + 1] == #[trigger] (esc + seq!['"'])[k]);
        }
        assert(i + 1 + esc.len() + 1 == i + cf.len());
        lemma_scan_quoted_complete(s, i + 1, f);
    } else {
        assert(cf == f);
        if 0 <= i < s.len() && s[i] == '"' {
            if f.len() == 0 {
                assert(i == s.len() || s[i] == ',');
            } else {
                assert(s[i] == f[0]) by {
                    assert(region[0] == s[i]);
                }
                assert(is_quotable(f[0]));
                assert(has_quotable(f));
            }
        }
        lemma_scan_raw_complete(s, i, f);
    }
}

/// A well-formed row parses back to exactly its own fields.
pub proof fn lemma_parse_row_complete(id: Seq<char>, name: Seq<char>, b: bool)
    requires
        line_free(id),
        line_free(name),
    ensures
        spec_parse_row(row_body(id, name, b)) == Some((id, name, b)),
{
    let s = row_body(id, name, b);
    let cid = csv_field(id);
    let cname = csv_field(name);
    let bs = bool_str(b);
    assert(s.len() == cid.len() + 1 + cname.len() + 1 + bs.len());
    let j = cid.len() as int;
    let k = j + 1 + cname.len();
    assert(s.subrange(0, j) =~= cid);
    assert(s[j] == ',');
    assert(s.subrange(j + 1, k) =~= cname);
    assert(s[k] == ',');
    assert(s.subrange(k + 1, s.len() as int) =~= bs);
    lemma_parse_field_complete(s, 0, id);
    lemma_parse_field_complete(s, j + 1, name);
    reveal_strlit("true");
    reveal_strlit("false");
    assert("true"@ != "false"@);
}

/// Prefixing the field accumulated so far onto a scan result.
pub open spec fn prepend_scan(prefix: Seq<char>, r: Option<(Seq<char>, int)>) -> Option<
    (Seq<char>, int),
> {
    match r {
        Some(fj) => Some((prefix + fj.0, fj.1)),
        None => None,
    }
}

fn exec_scan_quoted(line: &str, start: usize) -> (r: Option<(String, usize)>)
    requires
        start <= line@.len(),
    ensures
        match r {
            Some(p) => scan_quoted(line@, start as int) == Some((p.0@, p.1 as int)) && p.1
                <= line@.len(),
            None => scan_quoted(line@, start as int) is None,
        },
{
    let n = line.unicode_len();
    let mut acc = String::new();
    let mut i: usize = start;
    proof {
        match scan_quoted(line@, start as int) {
            Some(fj) => {
                assert(Seq::<char>::empty() + fj.0 =~= fj.0);
            },
            None => {},
        }
    }
    loop
        invariant
            n == line@.len(),
            start <= i <= n,
            scan_quoted(line@, start as int) == prepend_scan(
                acc@,
                scan_quoted(line@, i as int),
            ),
        decreases n - i,
    {
        if i >= n {
            return None;
        }
        let c = line.get_char(i);
        if c == '\n' || c == '\r' {
            return None;
        }
        if c != '"' {
            let ghost before = acc@;
            let piece = line.substring_char(i, i + 1);
            acc.append(piece);
            proof {
                assert(acc@ =~= before + seq![line@[i as int]]);
                match scan_quoted(line@, i + 1) {
                    Some(fj) => {
                        assert(before + (seq![line@[i as int]] + fj.0) =~= acc@ + fj.0);
                    },
                    None => {},
                }
            }
            i += 1;
        } else if i + 1 < n && line.get_char(i + 1) == '"' {
            let ghost before = acc@;
            proof {
                reveal_strlit("\"");
            }
            acc.append("\"");
            proof {
                assert(acc@ =~= before + seq!['"']);
                match scan_quoted(line@, i + 2) {
                    Some(fj) => {
                        assert(before + (seq!['"'] + fj.0) =~= acc@ + fj.0);
                    },
                    None => {},
                }
            }
            i += 2;
        } else {
            proof {
                assert(scan_quoted(line@, i as int) == Some(
                    (Seq::<char>::empty(), i + 1 as int),
                ));
                assert(acc@ + Seq::<char>::empty() =~= acc@);
            }
            return Some((acc, i + 1));
        }
    }
}

fn exec_scan_raw(line: &str, start: usize) -> (r: Option<(String, usize)>)
    requires
        start <= line@.len(),
    ensures
        match r {
            Some(p) => scan_raw(line@, start as int) == Some((p.0@, p.1 as int)) && p.1
                <= line@.len(),
            None => scan_raw(line@, start as int) is None,
        },
{
    let n = line.unicode_len();
    let mut acc = String::new();
    let mut i: usize = start;
    proof {
        match scan_raw(line@, start as int) {
            Some(fj) => {
                assert(Seq::<char>::empty() + fj.0 =~= fj.0);
            },
            None => {},
        }
    }
    loop
        invariant
            n == line@.len(),
            start <= i <= n,
            scan_raw(line@, start as int) == prepend_scan(acc@, scan_raw(line@, i as int)),
        decreases n - i,
    {
        if i >= n {
            proof {
                assert(acc@ + Seq::<char>::empty() =~= acc@);
            }
            return Some((acc, i));
        }
        let c = line.get_char(i);
        if c == ',' {
            proof {
                assert(acc@ + Seq::<char>::empty() =~= acc@);
            }
            return Some((acc, i));
        }
        if c == '"' || c == '\r' || c == '\n' {
            return None;
        }
        let ghost before = acc@;
        let piece = line.substring_char(i, i + 1);
        acc.append(piece);
        proof {
            assert(acc@ =~= before + seq![line@[i as int]]);
            match scan_raw(line@, i + 1) {
                Some(fj) => {
                    assert(before + (seq![line@[i as int]] + fj.0) =~= acc@ + fj.0);
                },
                None => {},
            }
        }
        i += 1;
    }
}

/// Whether a field value holds a comma or a quote and so must be quoted.
fn field_needs_quote(f: &str) -> (r: bool)
    ensures
        r == has_quotable(f@),
{
    let n = f.unicode_len();
    let mut quote = false;
    let mut i: usize = 0;
    while i < n
        invariant
            n == f@.len(),
            i <= n,
            quote == has_quotable(f@.subrange(0, i as int)),
        decreases n - i,
    {
        let c = f.get_char(i);
        proof {
            let sub = f@.subrange(0, i as int);
            let ext = f@.subrange(0, i + 1);
            assert(forall|k: int| 0 <= k < sub.len() ==> sub[k] == ext[k]);
            assert(ext[i as int] == f@[i as int]);
            if has_quotable(sub) {
                let w = choose|w: int| 0 <= w < sub.len() && is_quotable(sub[w]);
                assert(is_quotable(ext[w]));
            }
        }
        if c == ',' || c == '"' {
            quote = true;
        }
        i += 1;
    }
    proof {
        assert(f@.subrange(0, n as int) =~= f@);
    }
    quote
}

fn exec_parse_field(line: &str, start: usize) -> (r: Option<(String, usize)>)
    requires
        start <= line@.len(),
    ensures
        match r {
            Some(p) => spec_parse_field(line@, start as int) == Some((p.0@, p.1 as int)) && p.1
                <= line@.len(),
            None => spec_parse_field(line@, start as int) is None,
        },
{
    let n = line.unicode_len();
    if start < n && line.get_char(start) == '"' {
        match exec_scan_quoted(line, start + 1) {
            Some(fj) => {
                if field_needs_quote(fj.0.as_str()) {
                    Some(fj)
                } else {
                    None
                }
            },
            None => None,
        }
    } else {
        exec_scan_raw(line, start)
    }
}

/// Parses one data line of the sink: `Some(rec)` exactly when the line is
/// the well-formed rendering of `rec`'s fields.
pub fn parse_row_line(line: &str) -> (r: Option<CsvRepo>)
    ensures
        match r {
            Some(rec) => line@ == row_body(rec.id@, rec.name@, rec.has_pom) && line_free(rec.id@)
                && line_free(rec.name@),
            None => forall|id: Seq<char>, name: Seq<char>, b: bool|
                line_free(id) && line_free(name) ==> line@ != #[trigger] row_body(id, name, b),
        },
{
    let n = line.unicode_len();
    proof {
        lemma_parse_row_sound(line@);
        assert forall|id: Seq<char>, name: Seq<char>, b: bool|
            line_free(id) && line_free(name) && spec_parse_row(line@) is None implies line@
            != #[trigger] row_body(id, name, b) by {
            if line@ == row_body(id, name, b) {
                lemma_parse_row_complete(id, name, b);
            }
        }
    }
    match exec_parse_field(line, 0) {
        None => None,
        Some(idj) => {
            let (id, j) = idj;
            if j < n && line.get_char(j) == ',' {
                match exec_parse_field(line, j + 1) {
                    None => None,
                    Some(namek) => {
                        let (name, k) = namek;
                        if k < n && line.get_char(k) == ',' {
                            let rest = line.substring_char(k + 1, n).to_owned();
                            let truth: String = "true".to_owned();
                            let falsity: String = "false".to_owned();
                            if rest == truth {
                                Some(CsvRepo { id, name, has_pom: true })
                            } else if rest == falsity {
                                Some(CsvRepo { id, name, has_pom: false })
                            } else {
                                None
                            }
                        } else {
                            None
                        }
                    },
                }
            } else {
                None
            }
        },
    }
}

/// Rows whose fields are each a single line, the only rows this format can
/// hold.
pub open spec fn wf_rows(rows: Seq<CsvRepo>) -> bool {
    forall|i: int|
        0 <= i < rows.len() ==> line_free(#[trigger] rows[i].id@) && line_free(rows[i].name@)
}

pub open spec fn header_body() -> Seq<char> {
    "id,name,has_pom"@
}

pub open spec fn row_lines(rows: Seq<CsvRepo>) -> Seq<Seq<char>> {
    rows.map_values(|r: CsvRepo| row_body(r.id@, r.name@, r.has_pom))
}

/// The whole sink file for `rows`: the header line, then one line per row,
/// in order.
pub open spec fn csv_file_of(rows: Seq<CsvRepo>) -> Seq<char> {
    crate::ledger::join_lines(seq![header_body()] + row_lines(rows))
}

/// The sink file of no rows is just the header.
pub proof fn lemma_csv_file_empty()
    ensures
        csv_file_of(Seq::empty()) == csv_header(),
{
    reveal_strlit("id,name,has_pom");
    reveal_strlit("id,name,has_pom\n");
    let lines = seq![header_body()] + row_lines(Seq::empty());
    assert(lines.len() == 1);
    assert(lines[0] == header_body());
    assert(lines.drop_first() =~= Seq::<Seq<char>>::empty());
    assert(crate::ledger::join_lines(lines.drop_first()) == Seq::<char>::empty());
    assert(crate::ledger::join_lines(lines) == header_body() + seq!['\n'] + Seq::<char>::empty());
    assert(header_body() + seq!['\n'] + Seq::<char>::empty() =~= csv_header());
}

/// Appending one row to the file model appends exactly that row's line.
pub proof fn lemma_csv_file_push(rows: Seq<CsvRepo>, r: CsvRepo)
    ensures
        csv_file_of(rows.push(r)) == csv_file_of(rows) + csv_row(r.id@, r.name@, r.has_pom),
{
    let body = row_body(r.id@, r.name@, r.has_pom);
    assert(row_lines(rows.push(r)) =~= row_lines(rows).push(body));
    assert(seq![header_body()] + row_lines(rows).push(body) =~= (seq![header_body()] + row_lines(
        rows,
    )).push(body));
    crate::ledger::lemma_join_push(seq![header_body()] + row_lines(rows), body);
    assert(crate::ledger::ledger_line(body) == csv_row(r.id@, r.name@, r.has_pom));
}

/// The line structure of a well-formed sink file.
pub proof fn lemma_csv_file_lines(rows: Seq<CsvRepo>)
    requires
        wf_rows(rows),
    ensures
        csv_file_of(rows).len() > 0,
        csv_file_of(rows).last() == '\n',
        crate::ledger::split_lines(csv_file_of(rows)) == seq![header_body()] + row_lines(rows),
{
    let lines = seq![header_body()] + row_lines(rows);
    crate::ledger::lemma_join_terminated(lines);
    assert(forall|i: int, j: int|
        0 <= i < lines.len() && 0 <= j < lines[i].len() ==> #[trigger] lines[i][j] != '\n') by {
        reveal_strlit("id,name,has_pom");
        assert(line_free(header_body()));
        assert forall|i: int| 0 < i < lines.len() implies line_free(#[trigger] lines[i]) by {
            assert(lines[i] == row_lines(rows)[i - 1]);
            lemma_row_body_line_free(rows[i - 1].id@, rows[i - 1].name@, rows[i - 1].has_pom);
        }
        assert forall|i: int, j: int|
            0 <= i < lines.len() && 0 <= j < lines[i].len() implies #[trigger] lines[i][j]
            != '\n' by {
            assert(line_free(lines[i]));
        }
    }
    crate::ledger::lemma_split_join(lines);
}

/// Parses a whole result-sink file: `Some(rows)` exactly when the content
/// is the well-formed file of those rows.
pub fn parse_csv(content: &str) -> (r: Option<Vec<CsvRepo>>)
    ensures
        match r {
            Some(rows) => content@ == csv_file_of(rows@) && wf_rows(rows@),
            None => forall|rows: Seq<CsvRepo>|
                wf_rows(rows) ==> content@ != #[trigger] csv_file_of(rows),
        },
{
    let n = content.unicode_len();
    proof {
        reveal_strlit("\n");
    }
    if n == 0 || !strutil::str_ends_with(content, "\n") {
        proof {
            assert forall|rows: Seq<CsvRepo>| wf_rows(rows) implies content@
                != #[trigger] csv_file_of(rows) by {
                reveal_strlit("\n");
                if content@ == csv_file_of(rows) {
                    lemma_csv_file_lines(rows);
                    assert(content@.len() > 0);
                    assert(content@.subrange(content@.len() - 1, content@.len() as int) =~= "\n"@);
                    assert(strutil::ends_with(content@, "\n"@));
                }
            }
        }
        return None;
    }
    proof {
        reveal_strlit("\n");
        assert(content@.last() == '\n') by {
            assert(content@.subrange(content@.len() - 1, content@.len() as int)[0]
                == content@.last());
            assert(content@.subrange(content@.len() - 1, content@.len() as int) == "\n"@);
        }
    }
    let lines = crate::ledger::parse_ledger(content);
    let ghost line_views = lines@.map_values(|l: String| l@);
    proof {
        assert(content@.len() > 0);
        assert(crate::ledger::split_lines(content@).len() > 0);
        assert(line_views.len() == crate::ledger::split_lines(content@).len());
    }
    let header: String = "id,name,has_pom".to_owned();
    if !(lines[0] == header) {
        proof {
            assert(line_views[0] == crate::ledger::split_lines(content@)[0]);
            assert forall|rows: Seq<CsvRepo>| wf_rows(rows) implies content@
                != #[trigger] csv_file_of(rows) by {
                if content@ == csv_file_of(rows) {
                    lemma_csv_file_lines(rows);
                    assert((seq![header_body()] + row_lines(rows))[0] == header_body());
                }
            }
        }
        return None;
    }
    let mut rows: Vec<CsvRepo> = Vec::new();
    let mut i: usize = 1;
    proof {
        assert(row_lines(rows@) =~= line_views.subrange(1, 1));
    }
    while i < lines.len()
        invariant
            1 <= i <= lines.len(),
            line_views == lines@.map_values(|l: String| l@),
            line_views == crate::ledger::split_lines(content@),
            line_views[0] == header_body(),
            content@.len() > 0,
            content@.last() == '\n',
            wf_rows(rows@),
            rows@.len() == i - 1,
            row_lines(rows@) == line_views.subrange(1, i as int),
        decreases lines.len() - i,
    {
        let ghost prev_rows = rows@;
        match parse_row_line(lines[i].as_str()) {
            None => {
                proof {
                    assert(line_views[i as int] == lines@[i as int]@);
                    assert forall|other: Seq<CsvRepo>| wf_rows(other) implies content@
                        != #[trigger] csv_file_of(other) by {
                        if content@ == csv_file_of(other) {
                            lemma_csv_file_lines(other);
                            assert(line_views == seq![header_body()] + row_lines(other));
                            assert(line_views[i as int] == row_lines(other)[i - 1]);
                            assert(line_views[i as int] == row_body(
                                other[i - 1].id@,
                                other[i - 1].name@,
                                other[i - 1].has_pom,
                            ));
                            assert(line_free(other[i - 1].id@) && line_free(other[i - 1].name@));
                        }
                    }
                }
                return None;
            },
            Some(rec) => {
                rows.push(rec);
                proof {
                    assert(rows@ =~= prev_rows.push(rec));
                    assert(row_lines(rows@) =~= row_lines(prev_rows).push(
                        row_body(rec.id@, rec.name@, rec.has_pom),
                    ));
                    assert(row_lines(rows@) =~= line_views.subrange(1, i + 1));
                }
            },
        }
        i += 1;
    }
    proof {
        assert(row_lines(rows@) == line_views.subrange(1, line_views.len() as int));
        assert(line_views =~= seq![header_body()] + row_lines(rows@));
        crate::ledger::lemma_join_split_terminated(content@);
        assert(content@ == csv_file_of(rows@));
    }
    Some(rows)
}

/// What one sink append adds to the file: the header comes exactly once,
/// with the first row.
pub open spec fn sink_append(file_exists: bool, row: Seq<char>) -> Seq<char> {
    if file_exists {
        row
    } else {
        csv_header() + row
    }
}

/// The bytes that sequential appends of `rows` to a fresh sink accumulate:
/// the header once, then one rendered row per append, in write order.
pub open spec fn sink_writes(rows: Seq<CsvRepo>) -> Seq<char>
    decreases rows.len(),
{
    if rows.len() == 0 {
        Seq::empty()
    } else if rows.len() == 1 {
        sink_append(false, csv_row(rows[0].id@, rows[0].name@, rows[0].has_pom))
    } else {
        sink_writes(rows.drop_last()) + sink_append(
            true,
            csv_row(rows.last().id@, rows.last().name@, rows.last().has_pom),
        )
    }
}

/// A sink file produced by sequential appends to a fresh sink is exactly
/// the well-formed file of its rows, so a resumed run parses back exactly
/// the rows that were written.
pub proof fn lemma_sink_round_trip(rows: Seq<CsvRepo>)
    requires
        rows.len() > 0,
    ensures
        sink_writes(rows) == csv_file_of(rows),
    decreases rows.len(),
{
    if rows.len() == 1 {
        lemma_csv_file_empty();
        assert(rows.drop_last() =~= Seq::<CsvRepo>::empty());
        lemma_csv_file_push(rows.drop_last(), rows[0]);
        assert(rows.drop_last().push(rows[0]) =~= rows);
        assert(sink_writes(rows) == csv_header() + csv_row(
            rows[0].id@,
            rows[0].name@,
            rows[0].has_pom,
        ));
    } else {
        lemma_sink_round_trip(rows.drop_last());
        lemma_csv_file_push(rows.drop_last(), rows.last());
        assert(rows.drop_last().push(rows.last()) =~= rows);
    }
}

/// Three sequential appends to a fresh sink produce exactly one header line
/// followed by the three data rows, in write order.
pub proof fn lemma_sink_three_appends(r1: Seq<char>, r2: Seq<char>, r3: Seq<char>)
    ensures
        sink_append(false, r1) + sink_append(true, r2) + sink_append(true, r3) == csv_header() + r1
            + r2 + r3,
{
    assert(sink_append(false, r1) + sink_append(true, r2) + sink_append(true, r3) =~= csv_header()
        + r1 + r2 + r3);
}

} // verus!
