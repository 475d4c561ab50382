//! Checks on combinations of requested options, before a tidying run
//! starts.
use crate::TidyRequest;
use vstd::prelude::*;

verus! {

/// Dice must have between 2 and 36 sides for the dice-roll display to
/// work.
pub fn validate_dice_sides(dice_sides: Option<u8>) -> (r: Result<(), &'static str>)
    ensures
        r is Ok <==> (dice_sides matches Some(n) ==> 2 <= n <= 36),
{
    if let Some(dice_sides) = dice_sides {
        if !(2 <= dice_sides && dice_sides <= 36) {
            return Err("Error: Specified number of dice sides must be between 2 and 36.");
        }
    }
    Ok(())
}

/// At most one way of truncating the list may be chosen: whittling
/// excludes both cutting and taking.
pub fn validate_list_truncation_options(
    whittle_to: &Option<String>,
    cut_to: Option<usize>,
    take_first: Option<usize>,
    take_rand: Option<usize>,
) -> (r: Result<(), &'static str>)
    ensures
        r is Ok <==> !(whittle_to is Some && (cut_to is Some || take_first is Some
            || take_rand is Some)),
{
    if whittle_to.is_some() && cut_to.is_some() {
        Err(
            "Error: Can not specify BOTH a 'cut to' and 'whittle to' option. Please only use one of these two.",
        )
    } else if whittle_to.is_some() && (take_first.is_some() || take_rand.is_some()) {
        Err(
            "Error: Can not specify BOTH a 'whittle to' amount and a 'take first' or 'take rand' amount. Please only specify a whittle-to amount or a take amount.",
        )
    } else {
        Ok(())
    }
}

/// The options that the metadata-ignoring modes cannot be combined
/// with: anything that would modify or reorder the words themselves.
pub open spec fn conflicts_with_ignore(
    req: &TidyRequest,
    dice_sides: Option<u8>,
    print_dice_sides_as_their_base: bool,
) -> bool {
    ||| req.to_lowercase
    ||| req.should_straighten_quotes
    ||| req.should_remove_prefix_words
    ||| req.should_remove_suffix_words
    ||| req.should_schlinkert_prune
    ||| req.should_delete_nonalphanumeric
    ||| req.should_delete_integers
    ||| req.should_delete_before_first_delimiter is Some
    ||| req.should_delete_after_first_delimiter is Some
    ||| req.minimum_edit_distance is Some
    ||| req.maximum_shared_prefix_length is Some
    ||| req.homophones_list is Some
    ||| dice_sides is Some
    ||| print_dice_sides_as_their_base
}

/// Check the metadata-ignoring options: metadata can be ignored on at
/// most one side, and only together with options that leave the words
/// themselves untouched. On success, hand back the delimiters to use.
pub fn validate_and_parse_ignore_options(
    this_tidy_request: &TidyRequest,
    dice_sides: Option<u8>,
    print_dice_sides_as_their_base: bool,
) -> (r: Result<(Option<char>, Option<char>), &'static str>)
    ensures
        ({
            let conflict = conflicts_with_ignore(
                this_tidy_request,
                dice_sides,
                print_dice_sides_as_their_base,
            );
            match (
                this_tidy_request.ignore_after_delimiter,
                this_tidy_request.ignore_before_delimiter,
            ) {
                (Some(_), Some(_)) => r is Err,
                (None, None) => r == Result::<(Option<char>, Option<char>), &'static str>::Ok(
                    (None, None),
                ),
                (Some(after), None) => if conflict {
                    r is Err
                } else {
                    r == Result::<(Option<char>, Option<char>), &'static str>::Ok(
                        (Some(after), None),
                    )
                },
                (None, Some(before)) => if conflict {
                    r is Err
                } else {
                    r == Result::<(Option<char>, Option<char>), &'static str>::Ok(
                        (None, Some(before)),
                    )
                },
            }
        }),
{
    match (
        this_tidy_request.ignore_after_delimiter,
        this_tidy_request.ignore_before_delimiter,
    ) {
        (Some(_after_delimiter), Some(_before_delimiter)) => {
            let err_message = "Can't ignore metadata on both sides.";
            Err(err_message)
        },
        (None, None) => Ok((None, None)),
        (Some(after_delimiter), None) => {
            if this_tidy_request.to_lowercase || this_tidy_request.should_straighten_quotes
                || this_tidy_request.should_remove_prefix_words
                || this_tidy_request.should_remove_suffix_words
                || this_tidy_request.should_schlinkert_prune
                || this_tidy_request.should_delete_nonalphanumeric
                || this_tidy_request.should_delete_integers
                || this_tidy_request.should_delete_before_first_delimiter.is_some()
                || this_tidy_request.should_delete_after_first_delimiter.is_some()
                || this_tidy_request.minimum_edit_distance.is_some()
                || this_tidy_request.maximum_shared_prefix_length.is_some()
                || this_tidy_request.homophones_list.is_some() || dice_sides.is_some()
                || print_dice_sides_as_their_base {
                let err_message =
                    "--ignore-after option does not work with one of the other options you selected. Please change options. Exiting";
                Err(err_message)
            } else {
                Ok((Some(after_delimiter), None))
            }
        },
        (None, Some(before_delimiter)) => {
            if this_tidy_request.to_lowercase || this_tidy_request.should_straighten_quotes
                || this_tidy_request.should_remove_prefix_words
                || this_tidy_request.should_remove_suffix_words
                || this_tidy_request.should_schlinkert_prune
                || this_tidy_request.should_delete_nonalphanumeric
                || this_tidy_request.should_delete_integers
                || this_tidy_request.should_delete_before_first_delimiter.is_some()
                || this_tidy_request.should_delete_after_first_delimiter.is_some()
                || this_tidy_request.minimum_edit_distance.is_some()
                || this_tidy_request.maximum_shared_prefix_length.is_some()
                || this_tidy_request.homophones_list.is_some() || dice_sides.is_some()
                || print_dice_sides_as_their_base {
                let err_message =
                    "--ignore-before option does not work with one of the other options you selected. Please change options. Exiting";
                Err(err_message)
            } else {
                Ok((None, Some(before_delimiter)))
            }
        },
    }
}

} // verus!
