//! The description of a printing run: what to write, where to, and
//! with which numbering scheme. The writing itself happens outside the
//! library.
use vstd::prelude::*;

verus! {

/// The path type of std, declared so that a print request can carry an
/// output destination; only code outside the library reads what is
/// inside it.
#[verifier::external_type_specification]
#[verifier::external_body]
pub struct ExPathBuf(std::path::PathBuf);

/// Everything a printing run needs to know: the tidied list and the
/// requested output shape.
#[derive(Debug, Clone)]
pub struct PrintRequest {
    pub tidied_list: Vec<String>,
    pub dry_run: bool,
    pub quiet: bool,
    pub output: Option<std::path::PathBuf>,
    pub dice_sides: Option<u8>,
    pub cards: bool,
    pub print_dice_sides_as_their_base: bool,
    pub attributes: u8,
    pub attributes_as_json: bool,
    pub samples: bool,
    pub ignore_before_delimiter: Option<char>,
    pub ignore_after_delimiter: Option<char>,
}

impl Default for PrintRequest {
    /// A request that prints nothing special: an empty list and every
    /// option switched off.
    fn default() -> (r: Self)
        ensures
            r.tidied_list@ == Seq::<String>::empty(),
            r.dry_run == false,
            r.quiet == false,
            r.output is None,
            r.dice_sides is None,
            r.cards == false,
            r.print_dice_sides_as_their_base == false,
            r.attributes == 0,
            r.attributes_as_json == false,
            r.samples == false,
            r.ignore_before_delimiter is None,
            r.ignore_after_delimiter is None,
    {
        PrintRequest {
            tidied_list: Vec::new(),
            dry_run: false,
            quiet: false,
            output: None,
            dice_sides: None,
            cards: false,
            print_dice_sides_as_their_base: false,
            attributes: 0,
            attributes_as_json: false,
            samples: false,
            ignore_before_delimiter: None,
            ignore_after_delimiter: None,
        }
    }
}

} // verus!
