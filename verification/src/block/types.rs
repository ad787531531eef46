//! The blocks a stage of a program is written in, and their kinds.
use vstd::prelude::*;

verus! {

#[derive(Debug, Clone, Copy, PartialEq, Eq)]
pub enum Kind {
    Paragraph,
    Heading,
    Code,
    Callout,
    Diagram,
    Image,
}

/// The name of a kind in a stage file.
pub open spec fn kind_label(k: Kind) -> Seq<char> {
    match k {
        Kind::Paragraph => "paragraph"@,
        Kind::Heading => "heading"@,
        Kind::Code => "code"@,
        Kind::Callout => "callout"@,
        Kind::Diagram => "diagram"@,
        Kind::Image => "image"@,
    }
}

/// The optional fields that a block of a kind may carry.
pub open spec fn kind_fields(k: Kind) -> Seq<Seq<char>> {
    match k {
        Kind::Paragraph | Kind::Heading | Kind::Callout => Seq::empty(),
        Kind::Code => seq!["lang"@],
        Kind::Diagram => seq!["asset"@],
        Kind::Image => seq!["asset"@, "license"@, "attribution"@, "source"@],
    }
}

/// The views of some string slices.
pub open spec fn strs(v: Seq<&str>) -> Seq<Seq<char>> {
    v.map_values(|s: &str| s@)
}

impl Kind {
    /// Every kind, in the order a stage file lists them.
    pub fn all() -> (r: [Kind; 6])
        ensures
            r@ == seq![
                Kind::Paragraph,
                Kind::Heading,
                Kind::Code,
                Kind::Callout,
                Kind::Diagram,
                Kind::Image,
            ],
    {
        let r = [Kind::Paragraph, Kind::Heading, Kind::Code, Kind::Callout, Kind::Diagram, Kind::Image];
        assert(r@ =~= seq![
            Kind::Paragraph,
            Kind::Heading,
            Kind::Code,
            Kind::Callout,
            Kind::Diagram,
            Kind::Image,
        ]);
        r
    }

    pub fn label(self) -> (r: &'static str)
        ensures
            r@ == kind_label(self),
    {
        match self {
            Kind::Paragraph => "paragraph",
            Kind::Heading => "heading",
            Kind::Code => "code",
            Kind::Callout => "callout",
            Kind::Diagram => "diagram",
            Kind::Image => "image",
        }
    }

    pub fn fields(self) -> (r: Vec<&'static str>)
        ensures
            strs(r@) == kind_fields(self),
    {
        let mut r: Vec<&'static str> = Vec::new();
        match self {
            Kind::Paragraph | Kind::Heading | Kind::Callout => {},
            Kind::Code => {
                r.push("lang");
            },
            Kind::Diagram => {
                r.push("asset");
            },
            Kind::Image => {
                r.push("asset");
                r.push("license");
                r.push("attribution");
                r.push("source");
            },
        }
        assert(strs(r@) =~= kind_fields(self));
        r
    }
}

#[derive(Debug, Clone, PartialEq, Eq)]
pub struct Block {
    pub id: String,
    pub kind: Kind,
    pub text: String,
    pub lang: Option<String>,
    pub asset: Option<String>,
    pub license: Option<String>,
    pub attribution: Option<String>,
    pub source: Option<String>,
}

/// The view of an optional text.
pub open spec fn opt_view(o: Option<String>) -> Option<Seq<char>> {
    match o {
        Some(s) => Some(s@),
        None => None,
    }
}

/// The view of an optional slice of text.
pub open spec fn opt_str(o: Option<&str>) -> Option<Seq<char>> {
    match o {
        Some(s) => Some(s@),
        None => None,
    }
}

/// An optional text, borrowed.
pub fn as_deref(o: &Option<String>) -> (r: Option<&str>)
    ensures
        opt_str(r) == opt_view(*o),
{
    match o {
        Some(s) => Some(s.as_str()),
        None => None,
    }
}

impl Block {
    /// The optional fields of the block by name, in the order a stage file writes them.
    pub fn extras(&self) -> (r: [(&'static str, Option<&str>); 5])
        ensures
            r@.map_values(|e: (&str, Option<&str>)| (e.0@, opt_str(e.1))) == seq![
                ("lang"@, opt_view(self.lang)),
                ("asset"@, opt_view(self.asset)),
                ("license"@, opt_view(self.license)),
                ("attribution"@, opt_view(self.attribution)),
                ("source"@, opt_view(self.source)),
            ],
    {
        let r = [
            ("lang", as_deref(&self.lang)),
            ("asset", as_deref(&self.asset)),
            ("license", as_deref(&self.license)),
            ("attribution", as_deref(&self.attribution)),
            ("source", as_deref(&self.source)),
        ];
        assert(r@.map_values(|e: (&str, Option<&str>)| (e.0@, opt_str(e.1))) =~= seq![
            ("lang"@, opt_view(self.lang)),
            ("asset"@, opt_view(self.asset)),
            ("license"@, opt_view(self.license)),
            ("attribution"@, opt_view(self.attribution)),
            ("source"@, opt_view(self.source)),
        ]);
        r
    }
}

} // verus!
