//! The fields of a span or an event, gathered into one line of text.

use vstd::prelude::*;

use crate::text;

verus! {

broadcast use vstd::string::group_string_axioms;

/// What the fields of one span or event amount to.
pub struct FieldVisitor {
    /// The ordinary fields, as `name = value, name = value`.
    pub buf: String,
    /// The field that serves as the text of an event.
    pub message: Option<String>,
    /// A time that the fields report, in nanoseconds.
    pub elapsed_ns: Option<u64>,
    /// The origin that a forwarded log record reports.
    pub log_target: Option<String>,
}

/// The contents of a [`FieldVisitor`].
pub struct FieldsView {
    pub buf: Seq<char>,
    pub message: Option<Seq<char>>,
    pub elapsed_ns: Option<u64>,
    pub log_target: Option<Seq<char>>,
}

/// The characters of an optional string.
pub open spec fn text_of(s: Option<String>) -> Option<Seq<char>> {
    match s {
        Some(s) => Some(s@),
        None => None,
    }
}

impl View for FieldVisitor {
    type V = FieldsView;

    open spec fn view(&self) -> FieldsView {
        FieldsView {
            buf: self.buf@,
            message: text_of(self.message),
            elapsed_ns: self.elapsed_ns,
            log_target: text_of(self.log_target),
        }
    }
}

impl FieldsView {
    pub open spec fn empty() -> FieldsView {
        FieldsView { buf: seq![], message: None, elapsed_ns: None, log_target: None }
    }

    /// With the ordinary field `name = value` added.
    pub open spec fn with_field(self, name: Seq<char>, value: Seq<char>) -> FieldsView {
        let separator = if self.buf.len() == 0 {
            ""@
        } else {
            ", "@
        };
        FieldsView { buf: self.buf + separator + name + " = "@ + value, ..self }
    }

    /// The ordinary fields, if there are any.
    pub open spec fn finished(self) -> Option<Seq<char>> {
        if self.buf.len() == 0 {
            None
        } else {
            Some(self.buf)
        }
    }

    /// With a number recorded that reads `shown` and is `nanos` as a count of
    /// nanoseconds.
    pub open spec fn with_number(
        self,
        name: Seq<char>,
        nanos: u64,
        shown: Seq<char>,
    ) -> FieldsView {
        if name == "elapsed_ns"@ {
            FieldsView { elapsed_ns: Some(nanos), ..self }
        } else {
            self.with_field(name, shown)
        }
    }

    /// With a text recorded whose bare form is `bare` and which reads `shown`
    /// as an ordinary field.
    pub open spec fn with_text(
        self,
        name: Seq<char>,
        bare: Seq<char>,
        shown: Seq<char>,
    ) -> FieldsView {
        if name == "log.target"@ {
            FieldsView { log_target: Some(bare), ..self }
        } else if name == "message"@ || name == "error"@ {
            FieldsView { message: Some(bare), ..self }
        } else {
            self.with_field(name, shown)
        }
    }
}

impl FieldVisitor {
    /// No fields yet.
    pub fn new() -> (v: FieldVisitor)
        ensures
            v@ == FieldsView::empty(),
    {
        let v = FieldVisitor {
            buf: String::new(),
            message: None,
            elapsed_ns: None,
            log_target: None,
        };
        assert(v@.buf =~= seq![]);
        v
    }

    /// Adds the ordinary field `name = value`.
    pub fn push_field(&mut self, name: &str, value: &str)
        ensures
            final(self)@ == old(self)@.with_field(name@, value@),
    {
        proof {
            reveal_strlit("");
        }
        if !self.buf.as_str().is_empty() {
            self.buf.append(", ");
        } else {
            assert(self.buf@ =~= old(self)@.buf + ""@);
        }
        self.buf.append(name);
        self.buf.append(" = ");
        self.buf.append(value);
    }

    /// The ordinary fields, if there are any.
    pub fn finish_fields(self) -> (r: Option<String>)
        ensures
            text_of(r) == self@.finished(),
    {
        if self.buf.as_str().is_empty() {
            None
        } else {
            Some(self.buf)
        }
    }

    /// Records an integer field.
    pub fn record_u64(&mut self, name: &str, v: u64)
        ensures
            final(self)@ == old(self)@.with_number(name@, v, text::decimal(v as nat)),
    {
        if text::same(name, "elapsed_ns") {
            self.elapsed_ns = Some(v);
        } else {
            let mut shown = String::new();
            text::push_decimal(&mut shown, v);
            assert(shown@ =~= text::decimal(v as nat));
            self.push_field(name, shown.as_str());
        }
    }

    /// Records a floating-point field that reads `shown` and truncates to
    /// `truncated`.
    pub fn record_f64(&mut self, name: &str, truncated: u64, shown: &str)
        ensures
            final(self)@ == old(self)@.with_number(name@, truncated, shown@),
    {
        if text::same(name, "elapsed_ns") {
            self.elapsed_ns = Some(truncated);
        } else {
            self.push_field(name, shown);
        }
    }

    /// Records a text field.
    pub fn record_str(&mut self, name: &str, v: &str)
        ensures
            final(self)@ == old(self)@.with_text(name@, v@, v@),
    {
        if text::same(name, "log.target") {
            self.log_target = Some(v.to_owned());
        } else if text::same(name, "message") || text::same(name, "error") {
            self.message = Some(v.to_owned());
        } else {
            self.push_field(name, v);
        }
    }

    /// Records a field whose debug form is `v`. Where the field is not an
    /// ordinary one, the quotes around it are dropped.
    pub fn record_debug(&mut self, name: &str, v: &str)
        ensures
            final(self)@ == old(self)@.with_text(
                name@,
                text::before_quotes(text::after_quotes(v@)),
                v@,
            ),
    {
        if text::same(name, "message") || text::same(name, "error") {
            proof {
                reveal_strlit("message");
                reveal_strlit("error");
                reveal_strlit("log.target");
                assert("message"@.len() != "log.target"@.len());
                assert("error"@.len() != "log.target"@.len());
            }
            self.message = Some(text::trim_quotes(v));
        } else if text::same(name, "log.target") {
            self.log_target = Some(text::trim_quotes(v));
        } else {
            self.push_field(name, v);
        }
    }
}

impl Default for FieldVisitor {
    fn default() -> (v: FieldVisitor)
        ensures
            v@ == FieldsView::empty(),
    {
        FieldVisitor::new()
    }
}

/// Ordinary fields are joined: each is its name, an equals sign between blanks and its
/// value, and a comma and a blank stand between two of them. Fields that stand for
/// something else are not among them.
pub proof fn ordinary_fields_are_joined(v: FieldsView, name: Seq<char>, value: Seq<char>)
    ensures
        v.buf.len() == 0 ==> v.with_field(name, value).buf == name + seq![' ', '=', ' '] + value,
        v.buf.len() > 0 ==> v.with_field(name, value).buf == v.buf + seq![',', ' '] + name + seq![
            ' ',
            '=',
            ' ',
        ] + value,
        v.with_field(name, value).message == v.message,
        v.with_field(name, value).elapsed_ns == v.elapsed_ns,
        v.with_field(name, value).log_target == v.log_target,
        v.finished() == if v.buf.len() == 0 {
            None
        } else {
            Some(v.buf)
        },
{
    reveal_strlit("");
    reveal_strlit(", ");
    reveal_strlit(" = ");
    assert(", "@ =~= seq![',', ' ']);
    assert(" = "@ =~= seq![' ', '=', ' ']);
    assert(v.buf.len() == 0 ==> v.buf + ""@ + name + " = "@ + value =~= name + " = "@ + value);
}

/// A field by the name of `elapsed_ns` is a time, and all other numbers are ordinary
/// fields. A text by the name of `log.target` is where a record comes from, one by the
/// name of `message` or `error` is the text of an event, and all others are ordinary
/// fields. Each changes what it stands for and nothing else.
pub proof fn fields_go_by_their_names(
    v: FieldsView,
    name: Seq<char>,
    nanos: u64,
    bare: Seq<char>,
    shown: Seq<char>,
)
    ensures
        name == "elapsed_ns"@ ==> v.with_number(name, nanos, shown) == (FieldsView {
            elapsed_ns: Some(nanos),
            ..v
        }),
        name != "elapsed_ns"@ ==> v.with_number(name, nanos, shown) == v.with_field(name, shown),
        name == "log.target"@ ==> v.with_text(name, bare, shown) == (FieldsView {
            log_target: Some(bare),
            ..v
        }),
        name == "message"@ || name == "error"@ ==> v.with_text(name, bare, shown) == (FieldsView {
            message: Some(bare),
            ..v
        }),
        name != "log.target"@ && name != "message"@ && name != "error"@ ==> v.with_text(
            name,
            bare,
            shown,
        ) == v.with_field(name, shown),
{
    reveal_strlit("log.target");
    reveal_strlit("message");
    reveal_strlit("error");
    assert("log.target"@.len() != "message"@.len());
    assert("log.target"@.len() != "error"@.len());
}

/// Before any field there is nothing.
pub proof fn no_fields_at_first()
    ensures
        FieldsView::empty().buf.len() == 0,
        FieldsView::empty().message is None,
        FieldsView::empty().elapsed_ns is None,
        FieldsView::empty().log_target is None,
{
}

} // verus!
