use poke::dlp::{combine_matches, select_first_match};
use poke::{FAILURE_RETVAL, SUCCESS_RETVAL};

const S: u32 = SUCCESS_RETVAL;
const F: u32 = FAILURE_RETVAL;

#[test]
fn first_match_is_selected() {
    assert_eq!(select_first_match(&[F, F, S, F, F, F, F]), (2, S));
    assert_eq!(select_first_match(&[S, F, F]), (0, S));
    assert_eq!(select_first_match(&[F, F, F, F, S]), (4, S));
}

#[test]
fn later_matches_are_ignored() {
    assert_eq!(select_first_match(&[F, S, F, S, S]), (1, S));
}

#[test]
fn no_match_gives_zero_and_failure() {
    assert_eq!(select_first_match(&[F, F, F]), (0, F));
    assert_eq!(select_first_match(&[]), (0, F));
    assert_eq!(combine_matches(&[F, F, F, F, F]), (0, F));
}

#[test]
fn last_index_of_a_large_group() {
    let mut matches = vec![F; 251];
    matches[250] = S;
    assert_eq!(select_first_match(&matches), (250, S));
    assert_eq!(combine_matches(&matches), (250, S));
}

#[test]
fn combined_single_match_is_its_index() {
    assert_eq!(combine_matches(&[F, F, F, S, F]), (3, S));
    assert_eq!(combine_matches(&[S, F, F, F, F]), (0, S));
}

#[test]
fn combined_matches_are_ored() {
    assert_eq!(combine_matches(&[F, S, S, F, F]), (3, S));
}
