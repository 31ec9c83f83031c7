//! The broad kinds of file that type detection tells apart.

use vstd::prelude::*;

verus! {

/// A family of file types, as the detector groups them.
#[derive(Clone, Copy, Debug, PartialEq, Eq, Hash, Structural)]
pub enum MatcherType {
    App,
    Archive,
    Audio,
    Book,
    Doc,
    Font,
    Image,
    Text,
    Video,
    /// Not recognised by its contents.
    Custom,
}

/// The kind of a backed-up file.
#[derive(Clone, Copy, Debug, PartialEq, Eq, Hash, Structural)]
pub struct ExtensionType(pub MatcherType);

/// The text that stands for a family, as in its declaration.
pub open spec fn kind_name(kind: MatcherType) -> Seq<char> {
    match kind {
        MatcherType::App => seq!['A', 'p', 'p'],
        MatcherType::Archive => seq!['A', 'r', 'c', 'h', 'i', 'v', 'e'],
        MatcherType::Audio => seq!['A', 'u', 'd', 'i', 'o'],
        MatcherType::Book => seq!['B', 'o', 'o', 'k'],
        MatcherType::Doc => seq!['D', 'o', 'c'],
        MatcherType::Font => seq!['F', 'o', 'n', 't'],
        MatcherType::Image => seq!['I', 'm', 'a', 'g', 'e'],
        MatcherType::Text => seq!['T', 'e', 'x', 't'],
        MatcherType::Video => seq!['V', 'i', 'd', 'e', 'o'],
        MatcherType::Custom => seq!['C', 'u', 's', 't', 'o', 'm'],
    }
}

/// How a kind is shown to people: files of no recognised family are "Other".
pub open spec fn display_name(t: ExtensionType) -> Seq<char> {
    match t.0 {
        MatcherType::Custom => seq!['O', 't', 'h', 'e', 'r'],
        kind => kind_name(kind),
    }
}

/// The family whose name is `s`, if there is one.
pub open spec fn kind_named(s: Seq<char>) -> Option<MatcherType> {
    if s == kind_name(MatcherType::App) {
        Some(MatcherType::App)
    } else if s == kind_name(MatcherType::Archive) {
        Some(MatcherType::Archive)
    } else if s == kind_name(MatcherType::Audio) {
        Some(MatcherType::Audio)
    } else if s == kind_name(MatcherType::Book) {
        Some(MatcherType::Book)
    } else if s == kind_name(MatcherType::Doc) {
        Some(MatcherType::Doc)
    } else if s == kind_name(MatcherType::Font) {
        Some(MatcherType::Font)
    } else if s == kind_name(MatcherType::Image) {
        Some(MatcherType::Image)
    } else if s == kind_name(MatcherType::Text) {
        Some(MatcherType::Text)
    } else if s == kind_name(MatcherType::Video) {
        Some(MatcherType::Video)
    } else if s == kind_name(MatcherType::Custom) {
        Some(MatcherType::Custom)
    } else {
        None
    }
}

/// The text was not the name of a family.
#[derive(Clone, Copy, Debug, PartialEq, Eq)]
pub struct ParseExtensionTypeError;

/// Whether two strings hold the same text.
fn same_text(a: &str, b: &str) -> (res: bool)
    ensures
        res == (a@ == b@),
{
    a.to_owned() == b.to_owned()
}

impl ExtensionType {
    /// The kind's name as it is shown: the family's name, or "Other".
    pub fn to_string(&self) -> (res: String)
        ensures
            res@ == display_name(*self),
    {
        match self.0 {
            MatcherType::App => {
                proof {
                    reveal_strlit("App");
                }
                "App".to_owned()
            },
            MatcherType::Archive => {
                proof {
                    reveal_strlit("Archive");
                }
                "Archive".to_owned()
            },
            MatcherType::Audio => {
                proof {
                    reveal_strlit("Audio");
                }
                "Audio".to_owned()
            },
            MatcherType::Book => {
                proof {
                    reveal_strlit("Book");
                }
                "Book".to_owned()
            },
            MatcherType::Doc => {
                proof {
                    reveal_strlit("Doc");
                }
                "Doc".to_owned()
            },
            MatcherType::Font => {
                proof {
                    reveal_strlit("Font");
                }
                "Font".to_owned()
            },
            MatcherType::Image => {
                proof {
                    reveal_strlit("Image");
                }
                "Image".to_owned()
            },
            MatcherType::Text => {
                proof {
                    reveal_strlit("Text");
                }
                "Text".to_owned()
            },
            MatcherType::Video => {
                proof {
                    reveal_strlit("Video");
                }
                "Video".to_owned()
            },
            MatcherType::Custom => {
                proof {
                    reveal_strlit("Other");
                }
                "Other".to_owned()
            },
        }
    }

    /// Reads a family's name ("App", ..., "Video", "Custom").
    pub fn from_str(s: &str) -> (res: Result<ExtensionType, ParseExtensionTypeError>)
        ensures
            match kind_named(s@) {
                Some(kind) => res == Ok::<ExtensionType, ParseExtensionTypeError>(ExtensionType(kind)),
                None => res is Err,
            },
    {
        proof {
            reveal_strlit("App");
            reveal_strlit("Archive");
            reveal_strlit("Audio");
            reveal_strlit("Book");
            reveal_strlit("Doc");
            reveal_strlit("Font");
            reveal_strlit("Image");
            reveal_strlit("Text");
            reveal_strlit("Video");
            reveal_strlit("Custom");
            assert("App"@ =~= kind_name(MatcherType::App));
            assert("Archive"@ =~= kind_name(MatcherType::Archive));
            assert("Audio"@ =~= kind_name(MatcherType::Audio));
            assert("Book"@ =~= kind_name(MatcherType::Book));
            assert("Doc"@ =~= kind_name(MatcherType::Doc));
            assert("Font"@ =~= kind_name(MatcherType::Font));
            assert("Image"@ =~= kind_name(MatcherType::Image));
            assert("Text"@ =~= kind_name(MatcherType::Text));
            assert("Video"@ =~= kind_name(MatcherType::Video));
            assert("Custom"@ =~= kind_name(MatcherType::Custom));
        }
        let kind: MatcherType = if same_text(s, "App") {
            MatcherType::App
        } else if same_text(s, "Archive") {
            MatcherType::Archive
        } else if same_text(s, "Audio") {
            MatcherType::Audio
        } else if same_text(s, "Book") {
            MatcherType::Book
        } else if same_text(s, "Doc") {
            MatcherType::Doc
        } else if same_text(s, "Font") {
            MatcherType::Font
        } else if same_text(s, "Image") {
            MatcherType::Image
        } else if same_text(s, "Text") {
            MatcherType::Text
        } else if same_text(s, "Video") {
            MatcherType::Video
        } else if same_text(s, "Custom") {
            MatcherType::Custom
        } else {
            return Err(ParseExtensionTypeError);
        };
        Ok(ExtensionType(kind))
    }
}

impl core::str::FromStr for ExtensionType {
    type Err = ParseExtensionTypeError;

    fn from_str(s: &str) -> (res: Result<Self, Self::Err>)
        ensures
            match kind_named(s@) {
                Some(kind) => res == Ok::<ExtensionType, ParseExtensionTypeError>(ExtensionType(kind)),
                None => res is Err,
            },
    {
        ExtensionType::from_str(s)
    }
}

/// Reading back the shown name of a kind gives the kind again, for every kind
/// but the unrecognised one, which is shown as "Other" and read as "Custom".
pub proof fn lemma_display_then_parse(t: ExtensionType)
    requires
        t.0 != MatcherType::Custom,
    ensures
        kind_named(display_name(t)) == Some(t.0),
{
}

/// "Other", the shown name of the unrecognised kind, is no family's name.
pub proof fn lemma_other_is_not_a_name()
    ensures
        kind_named(display_name(ExtensionType(MatcherType::Custom))) is None,
{
}

} // verus!
