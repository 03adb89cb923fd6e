use vstd::prelude::*;

verus! {

/// One classification rule: a category name and the set of lowercase
/// extensions (without the leading dot) that belong to it.
pub struct Category {
    pub name: String,
    pub extensions: Vec<String>,
}

/// Mathematical model of a `Category`.
#[verifier::ext_equal]
pub struct CategoryView {
    pub name: Seq<char>,
    pub extensions: Seq<Seq<char>>,
}

impl View for Category {
    type V = CategoryView;

    open spec fn view(&self) -> CategoryView {
        CategoryView {
            name: self.name@,
            extensions: self.extensions@.map_values(|e: String| e@),
        }
    }
}

/// The category mapping: an ordered list of rules. Order matters, because
/// classification returns the first category whose extension set matches.
pub struct Config {
    pub categories: Vec<Category>,
}

impl View for Config {
    type V = Seq<CategoryView>;

    open spec fn view(&self) -> Seq<CategoryView> {
        self.categories@.map_values(|c: Category| c@)
    }
}

/// The built-in mapping: five categories and their usual extensions.
pub open spec fn spec_default_config() -> Seq<CategoryView> {
    seq![
        CategoryView {
            name: "Images"@,
            extensions: seq!["png"@, "jpg"@, "jpeg"@, "gif"@, "bmp"@, "svg"@, "webp"@],
        },
        CategoryView {
            name: "Docs"@,
            extensions: seq!["pdf"@, "doc"@, "docx"@, "txt"@, "rtf"@, "otd"@],
        },
        CategoryView {
            name: "Videos"@,
            extensions: seq!["mp4"@, "mkv"@, "avi"@, "mov"@, "wmv"@, "flv"@],
        },
        CategoryView {
            name: "Audio"@,
            extensions: seq!["mp3"@, "wav"@, "flac"@, "aac"@, "ogg"@, "m4a"@],
        },
        CategoryView {
            name: "Archives"@,
            extensions: seq!["zip"@, "rar"@, "7z"@, "tar"@, "gz"@, "bz2"@],
        },
    ]
}

fn category(name: &str, extensions: Vec<String>) -> (c: Category)
    ensures
        c@.name == name@,
        c@.extensions == extensions@.map_values(|e: String| e@),
{
    Category { name: String::from_str(name), extensions }
}

fn exts6(a: &str, b: &str, c: &str, d: &str, e: &str, f: &str) -> (v: Vec<String>)
    ensures
        v@.map_values(|s: String| s@) =~= seq![a@, b@, c@, d@, e@, f@],
{
    let v: Vec<String> = vec![
        String::from_str(a),
        String::from_str(b),
        String::from_str(c),
        String::from_str(d),
        String::from_str(e),
        String::from_str(f),
    ];
    v
}

fn exts7(a: &str, b: &str, c: &str, d: &str, e: &str, f: &str, g: &str) -> (v: Vec<String>)
    ensures
        v@.map_values(|s: String| s@) =~= seq![a@, b@, c@, d@, e@, f@, g@],
{
    let v: Vec<String> = vec![
        String::from_str(a),
        String::from_str(b),
        String::from_str(c),
        String::from_str(d),
        String::from_str(e),
        String::from_str(f),
        String::from_str(g),
    ];
    v
}

impl Config {
    /// The default mapping used when the caller supplies no overrides.
    pub fn default_config() -> (c: Config)
        ensures
            c@ == spec_default_config(),
    {
        let cats: Vec<Category> = vec![
            category("Images", exts7("png", "jpg", "jpeg", "gif", "bmp", "svg", "webp")),
            category("Docs", exts6("pdf", "doc", "docx", "txt", "rtf", "otd")),
            category("Videos", exts6("mp4", "mkv", "avi", "mov", "wmv", "flv")),
            category("Audio", exts6("mp3", "wav", "flac", "aac", "ogg", "m4a")),
            category("Archives", exts6("zip", "rar", "7z", "tar", "gz", "bz2")),
        ];
        let c = Config { categories: cats };
        proof {
            assert(c@.len() == 5);
            assert(c@[0] == cats@[0]@);
            assert(c@[1] == cats@[1]@);
            assert(c@[2] == cats@[2]@);
            assert(c@[3] == cats@[3]@);
            assert(c@[4] == cats@[4]@);
            assert(c@[0] =~~= spec_default_config()[0]);
            assert(c@[1] =~~= spec_default_config()[1]);
            assert(c@[2] =~~= spec_default_config()[2]);
            assert(c@[3] =~~= spec_default_config()[3]);
            assert(c@[4] =~~= spec_default_config()[4]);
            assert(c@ =~~= spec_default_config());
        }
        c
    }
}

} // verus!
