//! The invoice-creation response: one created invoice paired with the list
//! of referenced parcels that are not yet stored, if any.
//!
//! The value serializes as a TOML document with exactly two named fields,
//! `invoice` and `missing`, under its own envelope rather than flattened
//! into the invoice's fields.  The encoding is framed here character by
//! character and proved equal to `invoice_create_doc_chars`; the decoder
//! accepts only documents of that exact shape, so a payload with any field
//! beyond the two is rejected.

use vstd::prelude::*;
use vstd::utf8::encode_utf8;

use crate::toml_fmt::{
    expect_lit, lemma_form_advance, parse_basic_string, push_escaped_str, push_str_chars,
    quoted_form, string_from_chars, toml_escape,
};

verus! {

/// Identifying metadata for a referenced parcel.
#[derive(Debug)]
pub struct Label {
    pub name: String,
    pub sha256: String,
}

/// The characters of a label's fields.
pub struct LabelView {
    pub name: Seq<char>,
    pub sha256: Seq<char>,
}

impl View for Label {
    type V = LabelView;

    open spec fn view(&self) -> LabelView {
        LabelView { name: self.name@, sha256: self.sha256@ }
    }
}

/// The metadata of a created invoice, as this layer renders it.
#[derive(Debug)]
pub struct Invoice {
    pub name: String,
    pub version: String,
}

/// The characters of an invoice's fields.
pub struct InvoiceView {
    pub name: Seq<char>,
    pub version: Seq<char>,
}

impl View for Invoice {
    type V = InvoiceView;

    open spec fn view(&self) -> InvoiceView {
        InvoiceView { name: self.name@, version: self.version@ }
    }
}

/// A created invoice together with the referenced parcels not yet stored.
/// An absent list means the invoice is fully satisfied; a non-empty list
/// means it was accepted but references parcels that are still missing.
#[derive(Debug)]
pub struct InvoiceCreateResponse {
    pub invoice: Invoice,
    pub missing: Option<Vec<Label>>,
}

/// The fields of an invoice-creation response.
pub struct InvoiceCreateResponseView {
    pub invoice: InvoiceView,
    pub missing: Option<Seq<LabelView>>,
}

impl View for InvoiceCreateResponse {
    type V = InvoiceCreateResponseView;

    open spec fn view(&self) -> InvoiceCreateResponseView {
        InvoiceCreateResponseView {
            invoice: self.invoice@,
            missing: match self.missing {
                Some(ls) => Some(ls@.map_values(|l: Label| l@)),
                None => None,
            },
        }
    }
}

/// One label as a TOML inline table.
pub open spec fn label_chars(l: LabelView) -> Seq<char> {
    "{ name = \""@ + toml_escape(l.name) + "\""@ + ", sha256 = \""@ + toml_escape(l.sha256)
        + "\""@ + " }"@
}

/// A label list as the comma-separated contents of a TOML array.
pub open spec fn labels_chars(ls: Seq<LabelView>) -> Seq<char>
    decreases ls.len(),
{
    if ls.len() == 0 {
        Seq::<char>::empty()
    } else if ls.len() == 1 {
        label_chars(ls[0])
    } else {
        labels_chars(ls.drop_last()) + ", "@ + label_chars(ls.last())
    }
}

/// The `[invoice]` table with its two fields.
pub open spec fn invoice_table_chars(inv: InvoiceView) -> Seq<char> {
    "[invoice]\n"@ + "name = \""@ + toml_escape(inv.name) + "\""@ + "\nversion = \""@
        + toml_escape(inv.version) + "\""@ + "\n"@
}

/// The canonical document for a response: the `missing` array first, where
/// there is one, then the `[invoice]` table.  A fully satisfied response —
/// an absent or empty list — emits no `missing` field at all.
pub open spec fn invoice_create_doc_chars(v: InvoiceCreateResponseView) -> Seq<char> {
    match v.missing {
        Some(ls) => if ls.len() == 0 {
            invoice_table_chars(v.invoice)
        } else {
            "missing = ["@ + labels_chars(ls) + "]\n"@ + invoice_table_chars(v.invoice)
        },
        None => invoice_table_chars(v.invoice),
    }
}

/// The shape of text that begins with one label's inline table.
pub open spec fn label_form(s: Seq<char>, l: LabelView, rest: Seq<char>) -> bool {
    s == label_chars(l) + rest
}

/// The shape of text that begins with a label list.
pub open spec fn labels_form(s: Seq<char>, ls: Seq<LabelView>, rest: Seq<char>) -> bool {
    s == labels_chars(ls) + rest
}

/// The shape of text that begins with the `[invoice]` table.
pub open spec fn table_form(s: Seq<char>, inv: InvoiceView, rest: Seq<char>) -> bool {
    s == invoice_table_chars(inv) + rest
}

/// A label list written with each label preceded by its separator.
pub open spec fn labels_sep_chars(ls: Seq<LabelView>) -> Seq<char>
    decreases ls.len(),
{
    if ls.len() == 0 {
        Seq::<char>::empty()
    } else {
        ", "@ + label_chars(ls[0]) + labels_sep_chars(ls.drop_first())
    }
}

/// Appending one label to a separated list appends its separator and text.
proof fn lemma_labels_sep_push(ls: Seq<LabelView>, l: LabelView)
    ensures
        labels_sep_chars(ls.push(l)) == labels_sep_chars(ls) + ", "@ + label_chars(l),
    decreases ls.len(),
{
    if ls.len() == 0 {
        assert(ls.push(l).len() == 1);
        assert(ls.push(l)[0] == l);
        assert(ls.push(l).drop_first() =~= Seq::<LabelView>::empty());
        assert(labels_sep_chars(ls.push(l).drop_first()) =~= Seq::<char>::empty());
        assert(labels_sep_chars(ls) =~= Seq::<char>::empty());
        assert(labels_sep_chars(ls.push(l)) == ", "@ + label_chars(ls.push(l)[0])
            + labels_sep_chars(ls.push(l).drop_first()));
        assert(labels_sep_chars(ls.push(l)) =~= labels_sep_chars(ls) + ", "@ + label_chars(l));
    } else {
        lemma_labels_sep_push(ls.drop_first(), l);
        assert(ls.push(l).len() > 0);
        assert(ls.push(l)[0] == ls[0]);
        assert(ls.push(l).drop_first() =~= ls.drop_first().push(l));
        assert(labels_sep_chars(ls.push(l)) == ", "@ + label_chars(ls.push(l)[0])
            + labels_sep_chars(ls.push(l).drop_first()));
        assert(labels_sep_chars(ls.push(l)) =~= labels_sep_chars(ls) + ", "@ + label_chars(l));
    }
}

/// A non-empty label list is its first label followed by the rest, each
/// with its separator.
proof fn lemma_labels_front(ls: Seq<LabelView>)
    requires
        ls.len() > 0,
    ensures
        labels_chars(ls) == label_chars(ls[0]) + labels_sep_chars(ls.drop_first()),
    decreases ls.len(),
{
    if ls.len() == 1 {
        assert(ls.drop_first() =~= Seq::<LabelView>::empty());
        assert(labels_chars(ls) =~= label_chars(ls[0]) + labels_sep_chars(ls.drop_first()));
    } else {
        lemma_labels_front(ls.drop_last());
        assert(ls.drop_last()[0] == ls[0]);
        lemma_labels_sep_push(ls.drop_last().drop_first(), ls.last());
        assert(ls.drop_last().drop_first().push(ls.last()) =~= ls.drop_first());
        assert(labels_chars(ls) =~= label_chars(ls[0]) + labels_sep_chars(ls.drop_first()));
    }
}

/// How a label's inline table occupies the text: each fixed piece sits at
/// its position, the two strings stand in quoted form, and the text after
/// the closing brace is exactly what follows the label.
proof fn lemma_label_form_pieces(chars: Seq<char>, i: int, l: LabelView, rest: Seq<char>)
    requires
        0 <= i <= chars.len(),
        label_form(chars.skip(i), l, rest),
    ensures
        i + "{ name = \""@.len() <= chars.len(),
        chars.subrange(i, i + "{ name = \""@.len()) == "{ name = \""@,
        quoted_form(
            chars.skip(i + "{ name = \""@.len()),
            l.name,
            ", sha256 = \""@ + toml_escape(l.sha256) + "\""@ + " }"@ + rest,
        ),
        i + "{ name = \""@.len() + toml_escape(l.name).len() + 1 + ", sha256 = \""@.len()
            <= chars.len(),
        chars.subrange(
            i + "{ name = \""@.len() + toml_escape(l.name).len() + 1,
            i + "{ name = \""@.len() + toml_escape(l.name).len() + 1 + ", sha256 = \""@.len(),
        ) == ", sha256 = \""@,
        quoted_form(
            chars.skip(
                i + "{ name = \""@.len() + toml_escape(l.name).len() + 1 + ", sha256 = \""@.len(),
            ),
            l.sha256,
            " }"@ + rest,
        ),
        i + label_chars(l).len() - " }"@.len() + " }"@.len() <= chars.len(),
        chars.subrange(
            i + label_chars(l).len() - " }"@.len(),
            i + label_chars(l).len(),
        ) == " }"@,
        chars.skip(i + label_chars(l).len()) == rest,
        i + label_chars(l).len() <= chars.len(),
{
    let lit1 = "{ name = \""@;
    let q = "\""@;
    let lit2 = ", sha256 = \""@;
    let lit3 = " }"@;
    let e1 = toml_escape(l.name);
    let e2 = toml_escape(l.sha256);
    reveal_strlit("\"");
    let rest2 = lit2 + e2 + q + lit3 + rest;
    assert(chars.skip(i) =~= lit1 + (e1 + q + rest2));
    lemma_form_advance(chars, i, i + lit1.len(), lit1, e1 + q + rest2);
    let a1 = i + lit1.len();
    let a2 = a1 + e1.len() + 1;
    assert(e1 + q + rest2 =~= (e1 + q) + rest2);
    lemma_form_advance(chars, a1, a2, e1 + q, rest2);
    assert(rest2 =~= lit2 + (e2 + q + (lit3 + rest)));
    lemma_form_advance(chars, a2, a2 + lit2.len(), lit2, e2 + q + (lit3 + rest));
    let a3 = a2 + lit2.len();
    let a4 = a3 + e2.len() + 1;
    assert(e2 + q + (lit3 + rest) =~= (e2 + q) + (lit3 + rest));
    lemma_form_advance(chars, a3, a4, e2 + q, lit3 + rest);
    lemma_form_advance(chars, a4, a4 + lit3.len(), lit3, rest);
    assert(a4 + lit3.len() == i + label_chars(l).len());
    assert(quoted_form(chars.skip(a1), l.name, rest2));
    assert(quoted_form(chars.skip(a3), l.sha256, lit3 + rest));
}

/// How the `[invoice]` table occupies the text: each fixed piece sits at
/// its position, the two strings stand in quoted form, and the text after
/// the final newline is exactly what follows the table.
proof fn lemma_table_form_pieces(chars: Seq<char>, i: int, inv: InvoiceView, rest: Seq<char>)
    requires
        0 <= i <= chars.len(),
        table_form(chars.skip(i), inv, rest),
    ensures
        i + "[invoice]\n"@.len() <= chars.len(),
        chars.subrange(i, i + "[invoice]\n"@.len()) == "[invoice]\n"@,
        i + "[invoice]\n"@.len() + "name = \""@.len() <= chars.len(),
        chars.subrange(
            i + "[invoice]\n"@.len(),
            i + "[invoice]\n"@.len() + "name = \""@.len(),
        ) == "name = \""@,
        quoted_form(
            chars.skip(i + "[invoice]\n"@.len() + "name = \""@.len()),
            inv.name,
            "\nversion = \""@ + toml_escape(inv.version) + "\""@ + "\n"@ + rest,
        ),
        i + "[invoice]\n"@.len() + "name = \""@.len() + toml_escape(inv.name).len() + 1
            + "\nversion = \""@.len() <= chars.len(),
        chars.subrange(
            i + "[invoice]\n"@.len() + "name = \""@.len() + toml_escape(inv.name).len() + 1,
            i + "[invoice]\n"@.len() + "name = \""@.len() + toml_escape(inv.name).len() + 1
                + "\nversion = \""@.len(),
        ) == "\nversion = \""@,
        quoted_form(
            chars.skip(
                i + "[invoice]\n"@.len() + "name = \""@.len() + toml_escape(inv.name).len() + 1
                    + "\nversion = \""@.len(),
            ),
            inv.version,
            "\n"@ + rest,
        ),
        i + invoice_table_chars(inv).len() - "\n"@.len() + "\n"@.len() <= chars.len(),
        chars.subrange(
            i + invoice_table_chars(inv).len() - "\n"@.len(),
            i + invoice_table_chars(inv).len(),
        ) == "\n"@,
        chars.skip(i + invoice_table_chars(inv).len()) == rest,
        i + invoice_table_chars(inv).len() <= chars.len(),
{
    let lit1 = "[invoice]\n"@;
    let lit2 = "name = \""@;
    let q = "\""@;
    let lit3 = "\nversion = \""@;
    let lit4 = "\n"@;
    let e1 = toml_escape(inv.name);
    let e2 = toml_escape(inv.version);
    reveal_strlit("\"");
    let rest2 = lit3 + e2 + q + lit4 + rest;
    assert(chars.skip(i) =~= lit1 + (lit2 + (e1 + q + rest2)));
    lemma_form_advance(chars, i, i + lit1.len(), lit1, lit2 + (e1 + q + rest2));
    let a1 = i + lit1.len();
    lemma_form_advance(chars, a1, a1 + lit2.len(), lit2, e1 + q + rest2);
    let a2 = a1 + lit2.len();
    let a3 = a2 + e1.len() + 1;
    assert(e1 + q + rest2 =~= (e1 + q) + rest2);
    lemma_form_advance(chars, a2, a3, e1 + q, rest2);
    assert(rest2 =~= lit3 + (e2 + q + (lit4 + rest)));
    lemma_form_advance(chars, a3, a3 + lit3.len(), lit3, e2 + q + (lit4 + rest));
    let a4 = a3 + lit3.len();
    let a5 = a4 + e2.len() + 1;
    assert(e2 + q + (lit4 + rest) =~= (e2 + q) + (lit4 + rest));
    lemma_form_advance(chars, a4, a5, e2 + q, lit4 + rest);
    lemma_form_advance(chars, a5, a5 + lit4.len(), lit4, rest);
    assert(a5 + lit4.len() == i + invoice_table_chars(inv).len());
    assert(quoted_form(chars.skip(a2), inv.name, rest2));
    assert(quoted_form(chars.skip(a4), inv.version, lit4 + rest));
}

/// Pushes one label as a TOML inline table.
fn push_label(out: &mut Vec<char>, l: &Label)
    ensures
        final(out)@ == old(out)@ + label_chars(l@),
{
    push_str_chars(out, "{ name = \"");
    push_escaped_str(out, l.name.as_str());
    push_str_chars(out, "\"");
    push_str_chars(out, ", sha256 = \"");
    push_escaped_str(out, l.sha256.as_str());
    push_str_chars(out, "\"");
    push_str_chars(out, " }");
    assert(final(out)@ =~= old(out)@ + label_chars(l@));
}

/// Pushes the `[invoice]` table.
fn push_invoice_table(out: &mut Vec<char>, inv: &Invoice)
    ensures
        final(out)@ == old(out)@ + invoice_table_chars(inv@),
{
    push_str_chars(out, "[invoice]\n");
    push_str_chars(out, "name = \"");
    push_escaped_str(out, inv.name.as_str());
    push_str_chars(out, "\"");
    push_str_chars(out, "\nversion = \"");
    push_escaped_str(out, inv.version.as_str());
    push_str_chars(out, "\"");
    push_str_chars(out, "\n");
    assert(final(out)@ =~= old(out)@ + invoice_table_chars(inv@));
}

/// Parses one label written as a TOML inline table of the canonical shape:
/// whenever the text from the given position begins with such a table, the
/// parse succeeds and returns exactly that label.
fn parse_label(chars: &Vec<char>, i: usize) -> (r: Option<(Label, usize)>)
    requires
        i <= chars@.len(),
    ensures
        r matches Some(p) ==> {
            &&& i <= p.1 <= chars@.len()
            &&& chars@.subrange(i as int, p.1 as int) == label_chars(p.0@)
        },
        forall|l: LabelView, rest: Seq<char>|
            #[trigger] label_form(chars@.skip(i as int), l, rest) ==> {
                &&& r matches Some(p)
                &&& p.0@ == l
                &&& p.1 == i + label_chars(l).len()
            },
{
    let i1 = match expect_lit(chars, i, "{ name = \"") {
        Some(j) => j,
        None => {
            proof {
                assert forall|l: LabelView, rest: Seq<char>|
                    label_form(chars@.skip(i as int), l, rest) implies false by {
                    lemma_label_form_pieces(chars@, i as int, l, rest);
                };
            }
            return None;
        },
    };
    let (name, i2) = match parse_basic_string(chars, i1) {
        Some(p) => p,
        None => {
            proof {
                assert forall|l: LabelView, rest: Seq<char>|
                    label_form(chars@.skip(i as int), l, rest) implies false by {
                    lemma_label_form_pieces(chars@, i as int, l, rest);
                };
            }
            return None;
        },
    };
    let i3 = match expect_lit(chars, i2, ", sha256 = \"") {
        Some(j) => j,
        None => {
            proof {
                assert forall|l: LabelView, rest: Seq<char>|
                    label_form(chars@.skip(i as int), l, rest) implies false by {
                    lemma_label_form_pieces(chars@, i as int, l, rest);
                };
            }
            return None;
        },
    };
    let (sha256, i4) = match parse_basic_string(chars, i3) {
        Some(p) => p,
        None => {
            proof {
                assert forall|l: LabelView, rest: Seq<char>|
                    label_form(chars@.skip(i as int), l, rest) implies false by {
                    lemma_label_form_pieces(chars@, i as int, l, rest);
                };
            }
            return None;
        },
    };
    let j = match expect_lit(chars, i4, " }") {
        Some(j) => j,
        None => {
            proof {
                assert forall|l: LabelView, rest: Seq<char>|
                    label_form(chars@.skip(i as int), l, rest) implies false by {
                    lemma_label_form_pieces(chars@, i as int, l, rest);
                };
            }
            return None;
        },
    };
    let l = Label { name, sha256 };
    proof {
        assert forall|lv: LabelView, rest: Seq<char>|
            label_form(chars@.skip(i as int), lv, rest) implies (l@ == lv && j == i + label_chars(
            lv,
        ).len()) by {
            lemma_label_form_pieces(chars@, i as int, lv, rest);
        };
    }
    proof {
        let s = chars@;
        assert(s.subrange(i as int, j as int) =~= s.subrange(i as int, i1 as int) + s.subrange(
            i1 as int,
            i2 as int,
        ) + s.subrange(i2 as int, i3 as int) + s.subrange(i3 as int, i4 as int) + s.subrange(
            i4 as int,
            j as int,
        ));
        assert(s.subrange(i as int, j as int) =~= label_chars(l@));
    }
    Some((l, j))
}

/// While a label list is being read and a comma is next, a further label
/// of the list follows the separator.
proof fn lemma_next_label(
    chars: Seq<char>,
    i: int,
    j: int,
    parsed: Seq<LabelView>,
    lsv: Seq<LabelView>,
    rest: Seq<char>,
)
    requires
        0 <= i <= j <= chars.len(),
        labels_form(chars.skip(i), lsv, rest),
        lsv.len() > 0,
        rest.len() > 0,
        rest[0] != ',',
        parsed.len() <= lsv.len(),
        parsed == lsv.take(parsed.len() as int),
        chars.skip(j) == labels_sep_chars(lsv.skip(parsed.len() as int)) + rest,
        j < chars.len(),
        chars[j] == ',',
    ensures
        parsed.len() < lsv.len(),
        j + ", "@.len() <= chars.len(),
        chars.subrange(j, j + ", "@.len()) == ", "@,
        label_form(
            chars.skip(j + ", "@.len()),
            lsv[parsed.len() as int],
            labels_sep_chars(lsv.skip(parsed.len() + 1 as int)) + rest,
        ),
        chars.skip(j + ", "@.len() + label_chars(lsv[parsed.len() as int]).len())
            == labels_sep_chars(lsv.skip(parsed.len() + 1 as int)) + rest,
{
    reveal_strlit(", ");
    let cnt = parsed.len() as int;
    if cnt == lsv.len() {
        assert(lsv.skip(cnt) =~= Seq::<LabelView>::empty());
        assert(labels_sep_chars(lsv.skip(cnt)) =~= Seq::<char>::empty());
        assert(chars.skip(j) =~= rest);
        assert(chars[j] == chars.skip(j)[0]);
        assert(false);
    }
    let tail = lsv.skip(cnt);
    assert(tail.len() > 0);
    assert(tail[0] == lsv[cnt]);
    assert(tail.drop_first() =~= lsv.skip(cnt + 1));
    assert(labels_sep_chars(tail) == ", "@ + label_chars(tail[0]) + labels_sep_chars(
        tail.drop_first(),
    ));
    assert(chars.skip(j) =~= ", "@ + (label_chars(lsv[cnt]) + (labels_sep_chars(lsv.skip(cnt + 1))
        + rest)));
    lemma_form_advance(
        chars,
        j,
        j + ", "@.len(),
        ", "@,
        label_chars(lsv[cnt]) + (labels_sep_chars(lsv.skip(cnt + 1)) + rest),
    );
    lemma_form_advance(
        chars,
        j + ", "@.len(),
        j + ", "@.len() + label_chars(lsv[cnt]).len(),
        label_chars(lsv[cnt]),
        labels_sep_chars(lsv.skip(cnt + 1)) + rest,
    );
    assert(label_form(chars.skip(j + ", "@.len()), lsv[cnt], labels_sep_chars(lsv.skip(cnt + 1))
        + rest));
}

/// Parses a non-empty, comma-separated label list, stopping just before
/// whatever follows the last label: whenever the text from the given
/// position begins with a label list not followed by a further comma, the
/// parse succeeds and returns exactly those labels.
fn parse_labels(chars: &Vec<char>, i: usize) -> (r: Option<(Vec<Label>, usize)>)
    requires
        i <= chars@.len(),
    ensures
        r matches Some(p) ==> {
            &&& i <= p.1 <= chars@.len()
            &&& p.0@.len() > 0
            &&& chars@.subrange(i as int, p.1 as int) == labels_chars(
                p.0@.map_values(|l: Label| l@),
            )
        },
        forall|lsv: Seq<LabelView>, rest: Seq<char>|
            #[trigger] labels_form(chars@.skip(i as int), lsv, rest) && lsv.len() > 0
                && rest.len() > 0 && rest[0] != ',' ==> {
                &&& r matches Some(p)
                &&& p.0@.map_values(|l: Label| l@) == lsv
                &&& p.1 == i + labels_chars(lsv).len()
            },
{
    let mut ls: Vec<Label> = Vec::new();
    let (l0, first_end) = match parse_label(chars, i) {
        Some(p) => p,
        None => {
            proof {
                assert forall|lsv: Seq<LabelView>, rest: Seq<char>|
                    labels_form(chars@.skip(i as int), lsv, rest) && lsv.len() > 0
                        && rest.len() > 0 && rest[0] != ',' implies false by {
                    lemma_labels_front(lsv);
                    assert(chars@.skip(i as int) =~= label_chars(lsv[0]) + (labels_sep_chars(
                        lsv.drop_first(),
                    ) + rest));
                    assert(label_form(chars@.skip(i as int), lsv[0], labels_sep_chars(
                        lsv.drop_first(),
                    ) + rest));
                };
            }
            return None;
        },
    };
    let ghost l0v = l0@;
    ls.push(l0);
    let mut j: usize = first_end;
    let m = chars.len();
    proof {
        assert(ls@.map_values(|l: Label| l@) =~= seq![l0v]);
        assert(chars@.subrange(i as int, j as int) == labels_chars(ls@.map_values(|l: Label| l@)));
        assert forall|lsv: Seq<LabelView>, rest: Seq<char>|
            labels_form(chars@.skip(i as int), lsv, rest) && lsv.len() > 0 && rest.len() > 0
                && rest[0] != ',' implies (ls@.len() <= lsv.len() && ls@.map_values(|l: Label| l@)
            == lsv.take(ls@.len() as int) && chars@.skip(j as int) == labels_sep_chars(
            lsv.skip(ls@.len() as int),
        ) + rest) by {
            lemma_labels_front(lsv);
            assert(chars@.skip(i as int) =~= label_chars(lsv[0]) + (labels_sep_chars(
                lsv.drop_first(),
            ) + rest));
            assert(label_form(chars@.skip(i as int), lsv[0], labels_sep_chars(lsv.drop_first())
                + rest));
            assert(l0v == lsv[0]);
            lemma_form_advance(
                chars@,
                i as int,
                j as int,
                label_chars(lsv[0]),
                labels_sep_chars(lsv.drop_first()) + rest,
            );
            assert(lsv.drop_first() =~= lsv.skip(1));
            assert(lsv.take(1) =~= seq![lsv[0]]);
        };
    }
    while j < m && chars[j] == ','
        invariant
            m == chars@.len(),
            i <= j <= m,
            ls@.len() > 0,
            chars@.subrange(i as int, j as int) == labels_chars(ls@.map_values(|l: Label| l@)),
            forall|lsv: Seq<LabelView>, rest: Seq<char>|
                #[trigger] labels_form(chars@.skip(i as int), lsv, rest) && lsv.len() > 0
                    && rest.len() > 0 && rest[0] != ',' ==> {
                    &&& ls@.len() <= lsv.len()
                    &&& ls@.map_values(|l: Label| l@) == lsv.take(ls@.len() as int)
                    &&& chars@.skip(j as int) == labels_sep_chars(lsv.skip(ls@.len() as int))
                        + rest
                },
        decreases m - j,
    {
        let ghost prev = ls@.map_values(|l: Label| l@);
        let j1 = match expect_lit(chars, j, ", ") {
            Some(k) => k,
            None => {
                proof {
                    assert forall|lsv: Seq<LabelView>, rest: Seq<char>|
                        labels_form(chars@.skip(i as int), lsv, rest) && lsv.len() > 0
                            && rest.len() > 0 && rest[0] != ',' implies false by {
                        lemma_next_label(chars@, i as int, j as int, prev, lsv, rest);
                    };
                }
                return None;
            },
        };
        let (l, j2) = match parse_label(chars, j1) {
            Some(p) => p,
            None => {
                proof {
                    assert forall|lsv: Seq<LabelView>, rest: Seq<char>|
                        labels_form(chars@.skip(i as int), lsv, rest) && lsv.len() > 0
                            && rest.len() > 0 && rest[0] != ',' implies false by {
                        lemma_next_label(chars@, i as int, j as int, prev, lsv, rest);
                    };
                }
                return None;
            },
        };
        let ghost lv = l@;
        ls.push(l);
        proof {
            reveal_strlit(", ");
            assert(j1 == j + 2);
            let cur = ls@.map_values(|l: Label| l@);
            assert(cur =~= prev.push(lv));
            assert(cur.drop_last() =~= prev);
            assert(cur.last() == lv);
            assert(chars@.subrange(i as int, j2 as int) =~= chars@.subrange(i as int, j as int)
                + chars@.subrange(j as int, j1 as int) + chars@.subrange(j1 as int, j2 as int));
            assert(chars@.subrange(i as int, j2 as int) =~= labels_chars(cur));
            assert forall|lsv: Seq<LabelView>, rest: Seq<char>|
                labels_form(chars@.skip(i as int), lsv, rest) && lsv.len() > 0 && rest.len() > 0
                    && rest[0] != ',' implies (cur.len() <= lsv.len() && cur == lsv.take(
                cur.len() as int,
            ) && chars@.skip(j2 as int) == labels_sep_chars(lsv.skip(cur.len() as int)) + rest) by {
                lemma_next_label(chars@, i as int, j as int, prev, lsv, rest);
                assert(lv == lsv[prev.len() as int]);
                assert(j2 == j + 2 + label_chars(lsv[prev.len() as int]).len());
                assert(lsv.take(prev.len() + 1 as int) =~= prev.push(lsv[prev.len() as int]));
            };
        }
        j = j2;
    }
    proof {
        assert forall|lsv: Seq<LabelView>, rest: Seq<char>|
            labels_form(chars@.skip(i as int), lsv, rest) && lsv.len() > 0 && rest.len() > 0
                && rest[0] != ',' implies (ls@.map_values(|l: Label| l@) == lsv && j == i
            + labels_chars(lsv).len()) by {
            reveal_strlit(", ");
            let cnt = ls@.len() as int;
            if cnt < lsv.len() {
                let tail = lsv.skip(cnt);
                assert(tail.len() > 0);
                assert(labels_sep_chars(tail) == ", "@ + label_chars(tail[0]) + labels_sep_chars(
                    tail.drop_first(),
                ));
                assert(chars@.skip(j as int).len() >= 2);
                assert(j < m);
                assert(chars@[j as int] == chars@.skip(j as int)[0]);
                assert(chars@[j as int] == ',');
                assert(false);
            }
            assert(lsv.take(cnt) =~= lsv);
        };
    }
    Some((ls, j))
}

/// Parses the `[invoice]` table of the canonical shape: whenever the text
/// from the given position begins with such a table, the parse succeeds
/// and returns exactly that invoice.
fn parse_invoice_table(chars: &Vec<char>, i: usize) -> (r: Option<(Invoice, usize)>)
    requires
        i <= chars@.len(),
    ensures
        r matches Some(p) ==> {
            &&& i <= p.1 <= chars@.len()
            &&& chars@.subrange(i as int, p.1 as int) == invoice_table_chars(p.0@)
        },
        forall|inv: InvoiceView, rest: Seq<char>|
            #[trigger] table_form(chars@.skip(i as int), inv, rest) ==> {
                &&& r matches Some(p)
                &&& p.0@ == inv
                &&& p.1 == i + invoice_table_chars(inv).len()
            },
{
    let i1 = match expect_lit(chars, i, "[invoice]\n") {
        Some(j) => j,
        None => {
            proof {
                assert forall|inv: InvoiceView, rest: Seq<char>|
                    table_form(chars@.skip(i as int), inv, rest) implies false by {
                    lemma_table_form_pieces(chars@, i as int, inv, rest);
                };
            }
            return None;
        },
    };
    let i2 = match expect_lit(chars, i1, "name = \"") {
        Some(j) => j,
        None => {
            proof {
                assert forall|inv: InvoiceView, rest: Seq<char>|
                    table_form(chars@.skip(i as int), inv, rest) implies false by {
                    lemma_table_form_pieces(chars@, i as int, inv, rest);
                };
            }
            return None;
        },
    };
    let (name, i3) = match parse_basic_string(chars, i2) {
        Some(p) => p,
        None => {
            proof {
                assert forall|inv: InvoiceView, rest: Seq<char>|
                    table_form(chars@.skip(i as int), inv, rest) implies false by {
                    lemma_table_form_pieces(chars@, i as int, inv, rest);
                };
            }
            return None;
        },
    };
    let i4 = match expect_lit(chars, i3, "\nversion = \"") {
        Some(j) => j,
        None => {
            proof {
                assert forall|inv: InvoiceView, rest: Seq<char>|
                    table_form(chars@.skip(i as int), inv, rest) implies false by {
                    lemma_table_form_pieces(chars@, i as int, inv, rest);
                };
            }
            return None;
        },
    };
    let (version, i5) = match parse_basic_string(chars, i4) {
        Some(p) => p,
        None => {
            proof {
                assert forall|inv: InvoiceView, rest: Seq<char>|
                    table_form(chars@.skip(i as int), inv, rest) implies false by {
                    lemma_table_form_pieces(chars@, i as int, inv, rest);
                };
            }
            return None;
        },
    };
    let j = match expect_lit(chars, i5, "\n") {
        Some(j) => j,
        None => {
            proof {
                assert forall|inv: InvoiceView, rest: Seq<char>|
                    table_form(chars@.skip(i as int), inv, rest) implies false by {
                    lemma_table_form_pieces(chars@, i as int, inv, rest);
                };
            }
            return None;
        },
    };
    let inv = Invoice { name, version };
    proof {
        assert forall|iv: InvoiceView, rest: Seq<char>|
            table_form(chars@.skip(i as int), iv, rest) implies (inv@ == iv && j == i
            + invoice_table_chars(iv).len()) by {
            lemma_table_form_pieces(chars@, i as int, iv, rest);
        };
    }
    proof {
        let s = chars@;
        assert(s.subrange(i as int, j as int) =~= s.subrange(i as int, i1 as int) + s.subrange(
            i1 as int,
            i2 as int,
        ) + s.subrange(i2 as int, i3 as int) + s.subrange(i3 as int, i4 as int) + s.subrange(
            i4 as int,
            i5 as int,
        ) + s.subrange(i5 as int, j as int));
        assert(s.subrange(i as int, j as int) =~= invoice_table_chars(inv@));
    }
    Some((inv, j))
}

/// A text that a response can read back from: the canonical document of
/// the value, or its variant with an explicitly empty `missing` array.
pub open spec fn canonical_doc(doc: Seq<char>, w: InvoiceCreateResponseView) -> bool {
    doc == invoice_create_doc_chars(w) || doc == "missing = []\n"@ + invoice_table_chars(w.invoice)
}

/// A canonical document takes one of exactly three shapes: the bare table,
/// the table behind an empty `missing` array, or the table behind a
/// non-empty one.
proof fn lemma_doc_cases(doc: Seq<char>, v: InvoiceCreateResponseView)
    requires
        canonical_doc(doc, v),
    ensures
        doc == invoice_table_chars(v.invoice) || doc == "missing = []\n"@ + invoice_table_chars(
            v.invoice,
        ) || (v.missing matches Some(ls) && ls.len() > 0 && doc == "missing = ["@ + labels_chars(
            ls,
        ) + "]\n"@ + invoice_table_chars(v.invoice)),
{
}

/// How a bare-table document occupies the text.
proof fn lemma_doc_table(doc: Seq<char>, inv: InvoiceView)
    requires
        doc == invoice_table_chars(inv),
    ensures
        doc.len() == invoice_table_chars(inv).len(),
        doc.len() > 0,
        doc[0] == '[',
        table_form(doc.skip(0), inv, Seq::<char>::empty()),
{
    reveal_strlit("[invoice]\n");
    assert(doc.skip(0) =~= invoice_table_chars(inv) + Seq::<char>::empty());
    assert(doc[0] == ("[invoice]\n"@ + ("name = \""@ + toml_escape(inv.name) + "\""@
        + "\nversion = \""@ + toml_escape(inv.version) + "\""@ + "\n"@))[0]);
    assert(doc[0] == '[');
}

/// How an empty-`missing` document occupies the text.
proof fn lemma_doc_empty_missing(doc: Seq<char>, inv: InvoiceView)
    requires
        doc == "missing = []\n"@ + invoice_table_chars(inv),
    ensures
        doc.len() > 0,
        doc[0] == 'm',
        "missing = ["@.len() < doc.len(),
        doc.subrange(0, "missing = ["@.len() as int) == "missing = ["@,
        doc["missing = ["@.len() as int] == ']',
        "missing = ["@.len() + "]\n"@.len() <= doc.len(),
        doc.subrange("missing = ["@.len() as int, ("missing = ["@.len() + "]\n"@.len()) as int) == "]\n"@,
        table_form(
            doc.skip(("missing = ["@.len() + "]\n"@.len()) as int),
            inv,
            Seq::<char>::empty(),
        ),
        "missing = ["@.len() + "]\n"@.len() + invoice_table_chars(inv).len() == doc.len(),
{
    reveal_strlit("missing = []\n");
    reveal_strlit("missing = [");
    reveal_strlit("]\n");
    assert(doc.skip(0) =~= "missing = ["@ + ("]\n"@ + (invoice_table_chars(inv)
        + Seq::<char>::empty())));
    lemma_form_advance(doc, 0, "missing = ["@.len() as int, "missing = ["@, "]\n"@
        + (invoice_table_chars(inv) + Seq::<char>::empty()));
    lemma_form_advance(
        doc,
        "missing = ["@.len() as int,
        ("missing = ["@.len() + "]\n"@.len()) as int,
        "]\n"@,
        invoice_table_chars(inv) + Seq::<char>::empty(),
    );
    assert(doc["missing = ["@.len() as int] == doc.skip("missing = ["@.len() as int)[0]);
    assert(doc[0] == doc.skip(0)[0]);
}

/// How a document with a non-empty `missing` array occupies the text.
proof fn lemma_doc_labels_missing(doc: Seq<char>, ls: Seq<LabelView>, inv: InvoiceView)
    requires
        doc == "missing = ["@ + labels_chars(ls) + "]\n"@ + invoice_table_chars(inv),
        ls.len() > 0,
    ensures
        doc.len() > 0,
        doc[0] == 'm',
        "missing = ["@.len() < doc.len(),
        doc.subrange(0, "missing = ["@.len() as int) == "missing = ["@,
        doc["missing = ["@.len() as int] == '{',
        labels_form(
            doc.skip("missing = ["@.len() as int),
            ls,
            "]\n"@ + invoice_table_chars(inv),
        ),
        ("]\n"@ + invoice_table_chars(inv)).len() > 0,
        ("]\n"@ + invoice_table_chars(inv))[0] == ']',
        "missing = ["@.len() + labels_chars(ls).len() + "]\n"@.len() <= doc.len(),
        doc.subrange(
            ("missing = ["@.len() + labels_chars(ls).len()) as int,
            ("missing = ["@.len() + labels_chars(ls).len() + "]\n"@.len()) as int,
        ) == "]\n"@,
        table_form(
            doc.skip(("missing = ["@.len() + labels_chars(ls).len() + "]\n"@.len()) as int),
            inv,
            Seq::<char>::empty(),
        ),
        "missing = ["@.len() + labels_chars(ls).len() + "]\n"@.len() + invoice_table_chars(
            inv,
        ).len() == doc.len(),
{
    reveal_strlit("missing = [");
    reveal_strlit("]\n");
    reveal_strlit("{ name = \"");
    assert(doc.skip(0) =~= "missing = ["@ + (labels_chars(ls) + ("]\n"@ + (invoice_table_chars(
        inv,
    ) + Seq::<char>::empty()))));
    lemma_form_advance(doc, 0, "missing = ["@.len() as int, "missing = ["@, labels_chars(ls)
        + ("]\n"@ + (invoice_table_chars(inv) + Seq::<char>::empty())));
    lemma_form_advance(
        doc,
        "missing = ["@.len() as int,
        ("missing = ["@.len() + labels_chars(ls).len()) as int,
        labels_chars(ls),
        "]\n"@ + (invoice_table_chars(inv) + Seq::<char>::empty()),
    );
    lemma_form_advance(
        doc,
        ("missing = ["@.len() + labels_chars(ls).len()) as int,
        ("missing = ["@.len() + labels_chars(ls).len() + "]\n"@.len()) as int,
        "]\n"@,
        invoice_table_chars(inv) + Seq::<char>::empty(),
    );
    assert(labels_form(doc.skip("missing = ["@.len() as int), ls, "]\n"@ + invoice_table_chars(inv)));
    lemma_labels_front(ls);
    assert(labels_chars(ls)[0] == label_chars(ls[0])[0]);
    assert(label_chars(ls[0])[0] == '{');
    assert(doc["missing = ["@.len() as int] == doc.skip("missing = ["@.len() as int)[0]);
    assert(doc[0] == doc.skip(0)[0]);
}

impl InvoiceCreateResponse {
    /// The canonical TOML document for this response, as UTF-8 bytes:
    /// exactly the two named fields, with every string escaped through the
    /// TOML string-encoding path.
    pub fn to_toml(&self) -> (r: Vec<u8>)
        ensures
            r@ == encode_utf8(invoice_create_doc_chars(self@)),
    {
        let mut doc: Vec<char> = Vec::new();
        match &self.missing {
            Some(ls) => {
                if ls.len() > 0 {
                    push_str_chars(&mut doc, "missing = [");
                    let ghost lsv = ls@.map_values(|l: Label| l@);
                    let n = ls.len();
                    let mut i: usize = 0;
                    while i < n
                        invariant
                            n == ls@.len(),
                            lsv == ls@.map_values(|l: Label| l@),
                            0 < n,
                            i <= n,
                            doc@ == "missing = ["@ + labels_chars(lsv.take(i as int)),
                        decreases n - i,
                    {
                        if i > 0 {
                            push_str_chars(&mut doc, ", ");
                        }
                        push_label(&mut doc, &ls[i]);
                        proof {
                            let t = lsv.take(i + 1 as int);
                            assert(t.drop_last() =~= lsv.take(i as int));
                            assert(t.last() == lsv[i as int]);
                            assert(doc@ =~= "missing = ["@ + labels_chars(t));
                        }
                        i = i + 1;
                    }
                    proof {
                        assert(lsv.take(n as int) =~= lsv);
                    }
                    push_str_chars(&mut doc, "]\n");
                }
            },
            None => {},
        }
        push_invoice_table(&mut doc, &self.invoice);
        assert(doc@ =~= invoice_create_doc_chars(self@));
        let s = string_from_chars(&doc);
        s.as_str().as_bytes_vec()
    }

    /// Reads a response back from the text of its TOML document, strictly:
    /// only the canonical two-field shape is accepted, so a document with
    /// any further field is rejected.  An absent `missing` field and a
    /// present-but-empty list both read back as an absent list.  Any
    /// accepted document is exactly the canonical encoding of the returned
    /// value (or its empty-list variant), and every text of one of those
    /// two shapes is accepted.
    pub fn from_toml(doc: &str) -> (r: Option<InvoiceCreateResponse>)
        ensures
            r matches Some(v) ==> match v@.missing {
                Some(ls) => ls.len() > 0 && doc@ == invoice_create_doc_chars(v@),
                None => doc@ == invoice_create_doc_chars(v@) || doc@ == "missing = []\n"@
                    + invoice_table_chars(v@.invoice),
            },
            (exists|w: InvoiceCreateResponseView| canonical_doc(doc@, w)) ==> r is Some,
    {
        let mut chars: Vec<char> = Vec::new();
        push_str_chars(&mut chars, doc);
        proof {
            assert(chars@ =~= doc@);
        }
        let m = chars.len();
        if m > 0 && chars[0] == 'm' {
            let i1 = match expect_lit(&chars, 0, "missing = [") {
                Some(j) => j,
                None => {
                    proof {
                        if exists|w: InvoiceCreateResponseView| canonical_doc(doc@, w) {
                            let w = choose|w: InvoiceCreateResponseView| canonical_doc(doc@, w);
                            lemma_doc_cases(doc@, w);
                            if doc@ == invoice_table_chars(w.invoice) {
                                lemma_doc_table(doc@, w.invoice);
                            } else if doc@ == "missing = []\n"@ + invoice_table_chars(w.invoice) {
                                lemma_doc_empty_missing(doc@, w.invoice);
                            } else {
                                match w.missing {
                                    Some(wls) => {
                                        lemma_doc_labels_missing(doc@, wls, w.invoice);
                                    },
                                    None => {},
                                }
                            }
                            assert(false);
                        }
                    }
                    return None;
                },
            };
            if i1 < m && chars[i1] == ']' {
                let i2 = match expect_lit(&chars, i1, "]\n") {
                    Some(j) => j,
                    None => {
                        proof {
                            if exists|w: InvoiceCreateResponseView| canonical_doc(doc@, w) {
                                let w = choose|w: InvoiceCreateResponseView| canonical_doc(doc@, w);
                                lemma_doc_cases(doc@, w);
                                if doc@ == invoice_table_chars(w.invoice) {
                                    lemma_doc_table(doc@, w.invoice);
                                } else if doc@ == "missing = []\n"@ + invoice_table_chars(
                                    w.invoice,
                                ) {
                                    lemma_doc_empty_missing(doc@, w.invoice);
                                } else {
                                    match w.missing {
                                        Some(wls) => {
                                            lemma_doc_labels_missing(doc@, wls, w.invoice);
                                        },
                                        None => {},
                                    }
                                }
                                assert(false);
                            }
                        }
                        return None;
                    },
                };
                let (invoice, j) = match parse_invoice_table(&chars, i2) {
                    Some(p) => p,
                    None => {
                        proof {
                            if exists|w: InvoiceCreateResponseView| canonical_doc(doc@, w) {
                                let w = choose|w: InvoiceCreateResponseView| canonical_doc(doc@, w);
                                lemma_doc_cases(doc@, w);
                                if doc@ == invoice_table_chars(w.invoice) {
                                    lemma_doc_table(doc@, w.invoice);
                                } else if doc@ == "missing = []\n"@ + invoice_table_chars(
                                    w.invoice,
                                ) {
                                    lemma_doc_empty_missing(doc@, w.invoice);
                                    assert(table_form(
                                        chars@.skip(i2 as int),
                                        w.invoice,
                                        Seq::<char>::empty(),
                                    ));
                                } else {
                                    match w.missing {
                                        Some(wls) => {
                                            lemma_doc_labels_missing(doc@, wls, w.invoice);
                                        },
                                        None => {},
                                    }
                                }
                                assert(false);
                            }
                        }
                        return None;
                    },
                };
                if j != m {
                    proof {
                        if exists|w: InvoiceCreateResponseView| canonical_doc(doc@, w) {
                            let w = choose|w: InvoiceCreateResponseView| canonical_doc(doc@, w);
                            lemma_doc_cases(doc@, w);
                            if doc@ == invoice_table_chars(w.invoice) {
                                lemma_doc_table(doc@, w.invoice);
                            } else if doc@ == "missing = []\n"@ + invoice_table_chars(w.invoice) {
                                lemma_doc_empty_missing(doc@, w.invoice);
                                assert(table_form(
                                    chars@.skip(i2 as int),
                                    w.invoice,
                                    Seq::<char>::empty(),
                                ));
                                assert(j == m);
                            } else {
                                match w.missing {
                                    Some(wls) => {
                                        lemma_doc_labels_missing(doc@, wls, w.invoice);
                                    },
                                    None => {},
                                }
                            }
                            assert(false);
                        }
                    }
                    return None;
                }
                let v = InvoiceCreateResponse { invoice, missing: None };
                proof {
                    reveal_strlit("missing = [");
                    reveal_strlit("]\n");
                    reveal_strlit("missing = []\n");
                    assert(doc@ =~= chars@.subrange(0, i1 as int) + chars@.subrange(
                        i1 as int,
                        i2 as int,
                    ) + chars@.subrange(i2 as int, m as int));
                    assert(doc@ =~= "missing = []\n"@ + invoice_table_chars(v@.invoice));
                }
                Some(v)
            } else {
                let (missing, i2) = match parse_labels(&chars, i1) {
                    Some(p) => p,
                    None => {
                        proof {
                            if exists|w: InvoiceCreateResponseView| canonical_doc(doc@, w) {
                                let w = choose|w: InvoiceCreateResponseView| canonical_doc(doc@, w);
                                lemma_doc_cases(doc@, w);
                                if doc@ == invoice_table_chars(w.invoice) {
                                    lemma_doc_table(doc@, w.invoice);
                                } else if doc@ == "missing = []\n"@ + invoice_table_chars(
                                    w.invoice,
                                ) {
                                    lemma_doc_empty_missing(doc@, w.invoice);
                                } else {
                                    match w.missing {
                                        Some(wls) => {
                                            lemma_doc_labels_missing(doc@, wls, w.invoice);
                                            assert(labels_form(
                                                chars@.skip(i1 as int),
                                                wls,
                                                "]\n"@ + invoice_table_chars(w.invoice),
                                            ));
                                        },
                                        None => {},
                                    }
                                }
                                assert(false);
                            }
                        }
                        return None;
                    },
                };
                let i3 = match expect_lit(&chars, i2, "]\n") {
                    Some(j) => j,
                    None => {
                        proof {
                            if exists|w: InvoiceCreateResponseView| canonical_doc(doc@, w) {
                                let w = choose|w: InvoiceCreateResponseView| canonical_doc(doc@, w);
                                lemma_doc_cases(doc@, w);
                                if doc@ == invoice_table_chars(w.invoice) {
                                    lemma_doc_table(doc@, w.invoice);
                                } else if doc@ == "missing = []\n"@ + invoice_table_chars(
                                    w.invoice,
                                ) {
                                    lemma_doc_empty_missing(doc@, w.invoice);
                                } else {
                                    match w.missing {
                                        Some(wls) => {
                                            lemma_doc_labels_missing(doc@, wls, w.invoice);
                                            assert(labels_form(
                                                chars@.skip(i1 as int),
                                                wls,
                                                "]\n"@ + invoice_table_chars(w.invoice),
                                            ));
                                        },
                                        None => {},
                                    }
                                }
                                assert(false);
                            }
                        }
                        return None;
                    },
                };
                let (invoice, j) = match parse_invoice_table(&chars, i3) {
                    Some(p) => p,
                    None => {
                        proof {
                            if exists|w: InvoiceCreateResponseView| canonical_doc(doc@, w) {
                                let w = choose|w: InvoiceCreateResponseView| canonical_doc(doc@, w);
                                lemma_doc_cases(doc@, w);
                                if doc@ == invoice_table_chars(w.invoice) {
                                    lemma_doc_table(doc@, w.invoice);
                                } else if doc@ == "missing = []\n"@ + invoice_table_chars(
                                    w.invoice,
                                ) {
                                    lemma_doc_empty_missing(doc@, w.invoice);
                                } else {
                                    match w.missing {
                                        Some(wls) => {
                                            lemma_doc_labels_missing(doc@, wls, w.invoice);
                                            assert(labels_form(
                                                chars@.skip(i1 as int),
                                                wls,
                                                "]\n"@ + invoice_table_chars(w.invoice),
                                            ));
                                            assert(table_form(
                                                chars@.skip(i3 as int),
                                                w.invoice,
                                                Seq::<char>::empty(),
                                            ));
                                        },
                                        None => {},
                                    }
                                }
                                assert(false);
                            }
                        }
                        return None;
                    },
                };
                if j != m {
                    proof {
                        if exists|w: InvoiceCreateResponseView| canonical_doc(doc@, w) {
                            let w = choose|w: InvoiceCreateResponseView| canonical_doc(doc@, w);
                            lemma_doc_cases(doc@, w);
                            if doc@ == invoice_table_chars(w.invoice) {
                                lemma_doc_table(doc@, w.invoice);
                            } else if doc@ == "missing = []\n"@ + invoice_table_chars(w.invoice) {
                                lemma_doc_empty_missing(doc@, w.invoice);
                            } else {
                                match w.missing {
                                    Some(wls) => {
                                        lemma_doc_labels_missing(doc@, wls, w.invoice);
                                        assert(labels_form(
                                            chars@.skip(i1 as int),
                                            wls,
                                            "]\n"@ + invoice_table_chars(w.invoice),
                                        ));
                                        assert(table_form(
                                            chars@.skip(i3 as int),
                                            w.invoice,
                                            Seq::<char>::empty(),
                                        ));
                                        assert(j == m);
                                    },
                                    None => {},
                                }
                            }
                            assert(false);
                        }
                    }
                    return None;
                }
                let v = InvoiceCreateResponse { invoice, missing: Some(missing) };
                proof {
                    assert(doc@ =~= chars@.subrange(0, i1 as int) + chars@.subrange(
                        i1 as int,
                        i2 as int,
                    ) + chars@.subrange(i2 as int, i3 as int) + chars@.subrange(
                        i3 as int,
                        m as int,
                    ));
                    assert(doc@ =~= invoice_create_doc_chars(v@));
                }
                Some(v)
            }
        } else {
            let (invoice, j) = match parse_invoice_table(&chars, 0) {
                Some(p) => p,
                None => {
                    proof {
                        if exists|w: InvoiceCreateResponseView| canonical_doc(doc@, w) {
                            let w = choose|w: InvoiceCreateResponseView| canonical_doc(doc@, w);
                            lemma_doc_cases(doc@, w);
                            if doc@ == invoice_table_chars(w.invoice) {
                                lemma_doc_table(doc@, w.invoice);
                                assert(table_form(chars@.skip(0), w.invoice, Seq::<char>::empty()));
                            } else if doc@ == "missing = []\n"@ + invoice_table_chars(w.invoice) {
                                lemma_doc_empty_missing(doc@, w.invoice);
                                assert(chars@[0] == 'm');
                            } else {
                                match w.missing {
                                    Some(wls) => {
                                        lemma_doc_labels_missing(doc@, wls, w.invoice);
                                        assert(chars@[0] == 'm');
                                    },
                                    None => {},
                                }
                            }
                            assert(false);
                        }
                    }
                    return None;
                },
            };
            if j != m {
                proof {
                    if exists|w: InvoiceCreateResponseView| canonical_doc(doc@, w) {
                        let w = choose|w: InvoiceCreateResponseView| canonical_doc(doc@, w);
                        lemma_doc_cases(doc@, w);
                        if doc@ == invoice_table_chars(w.invoice) {
                            lemma_doc_table(doc@, w.invoice);
                            assert(table_form(chars@.skip(0), w.invoice, Seq::<char>::empty()));
                            assert(j == m);
                        } else if doc@ == "missing = []\n"@ + invoice_table_chars(w.invoice) {
                            lemma_doc_empty_missing(doc@, w.invoice);
                            assert(chars@[0] == 'm');
                        } else {
                            match w.missing {
                                Some(wls) => {
                                    lemma_doc_labels_missing(doc@, wls, w.invoice);
                                    assert(chars@[0] == 'm');
                                },
                                None => {},
                            }
                        }
                        assert(false);
                    }
                }
                return None;
            }
            let v = InvoiceCreateResponse { invoice, missing: None };
            proof {
                assert(doc@ =~= invoice_table_chars(v@.invoice));
            }
            Some(v)
        }
    }
}

} // verus!
