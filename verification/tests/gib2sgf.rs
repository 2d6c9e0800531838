use gib2sgf::gib2sgf::{application, remove_app_version_from_sgf};
use gib2sgf::gib_to_sgf;

const FIXED: &str = "RU[Japanese]SZ[19]GM[1]FF[4]CA[UTF-8]AP[gib2sgf:0.1.0]";

#[test]
fn converts_a_whole_game() {
    let gib = "\\HS\n\
        \\[GAMEBLACKNAME=blackie (5D)\\]\n\
        \\[GAMEWHITENAME=whitey (6D)\\]\n\
        \\[GAMEINFOMAIN=GBKIND:3,GTYPE:0,GCDT:1,GTIME:1200-30-3,GRLT:3,ZIPSU:0,DUM:0,GONGJE:65,TCNT:3,AUSZ:0\\]\n\
        \\[GAMEDATE=2009- 3-28-16-33-24\\]\n\
        \\[GAMEPLACE=Tygem Baduk\\]\n\
        \\HE\n\\GS\n2 1 0\n3 0 &4\nINI 0 1 0 &4 \n\
        STO 0 2 1 15 3 \nSTO 0 3 2 3 15 \nSTO 0 4 1 16 15 \n\\GE\n";
    assert_eq!(
        gib_to_sgf(gib).unwrap(),
        "(;PB[blackie]BR[5D]PW[whitey]WR[6D]KM[6.5]DT[2009-03-28]RE[B+R]SO[Tygem Baduk]\
         RU[Japanese]SZ[19]GM[1]FF[4]CA[UTF-8]AP[gib2sgf:0.1.0];B[pd];W[dp];B[qp])"
    );
}

#[test]
fn root_properties_keep_their_order_whatever_the_order_of_the_tags() {
    let gib = "\\[GAMEPLACE=here\\]\\[GAMEDATE=2020-4-7\\]\\[GAMETAG=Z5,W0,G-,G5\\]\
        \\[GAMEWHITENAME=w (1D)\\]\\[GAMEBLACKNAME=b (2D)\\]";
    assert_eq!(
        gib_to_sgf(gib).unwrap(),
        format!("(;PB[b]BR[2D]PW[w]WR[1D]KM[0.5]DT[2020-04-07]RE[B+0.5]SO[here]{})", FIXED)
    );
}

#[test]
fn missing_metadata_leaves_only_its_properties_out() {
    assert_eq!(gib_to_sgf("").unwrap(), format!("(;{})", FIXED));
    assert_eq!(
        gib_to_sgf("\\HS\n\\HE\n\\GS\nSTO 0 2 1 0 0 \nSTO 0 3 2 18 17 \n\\GE").unwrap(),
        format!("(;{};B[aa];W[sr])", FIXED)
    );
    assert_eq!(
        gib_to_sgf("\\[GAMEWHITENAME=w\\]\\[GAMEINFOMAIN=GRLT:1\\]").unwrap(),
        format!("(;PW[w]RE[W+?]{})", FIXED)
    );
}

#[test]
fn handicap_adds_the_number_and_the_points_of_its_stones() {
    assert_eq!(
        gib_to_sgf("INI 0 1 2 &4 \nSTO 0 2 2 3 3").unwrap(),
        format!("(;{}HA[2]AB[dp][pd];W[dd])", FIXED)
    );
    assert_eq!(
        gib_to_sgf("INI 0 1 5 &4").unwrap(),
        format!("(;{}HA[5]AB[jj][dp][pd][pp][dd])", FIXED)
    );
    assert_eq!(
        gib_to_sgf("INI 0 1 12 &4").unwrap(),
        format!("(;{}HA[12]AB[dp][pd][pp][dd][dj][pj][jd][jp][jj])", FIXED)
    );
    assert_eq!(gib_to_sgf("INI 0 1 1 &4").unwrap(), format!("(;{})", FIXED));
}

#[test]
fn a_pass_is_a_move_with_an_empty_value() {
    assert_eq!(
        gib_to_sgf("STO 0 2 1 3 3 \nSKI 0 3 \nSKI 0 4 ").unwrap(),
        format!("(;{};B[dd];W[];B[])", FIXED)
    );
}

#[test]
fn an_unreadable_text_gives_the_message_and_no_sgf() {
    assert_eq!(
        gib_to_sgf("STO 0 2 1 3").err().unwrap().to_string(),
        "not a number ''"
    );
    assert_eq!(
        gib_to_sgf("\\[GAMEDATE=2021-2-30\\]").err().unwrap().to_string(),
        "invalid month 2021-02-30"
    );
    assert_eq!(
        gib_to_sgf("\\[GAMEPLACE=unfinished").err().unwrap().to_string(),
        "Expected '\\]', but did not see"
    );
}

#[test]
fn closing_brackets_in_values_are_escaped() {
    assert_eq!(
        gib_to_sgf("\\[GAMEPLACE=a]b[c\\]\\[GAMEBLACKNAME=한국 (9단)\\]").unwrap(),
        format!("(;PB[한국]BR[9단]SO[a\\]b[c]{})", FIXED)
    );
}

#[test]
fn converting_twice_gives_the_same_text() {
    let gib = "\\[GAMEBLACKNAME=b (2D)\\] STO 0 2 1 3 3";
    assert_eq!(gib_to_sgf(gib).unwrap(), gib_to_sgf(gib).unwrap());
}

#[test]
fn application_names_the_converter() {
    assert_eq!(application(), "gib2sgf:0.1.0");
}

#[test]
fn application_property_is_left_out() {
    assert_eq!(
        remove_app_version_from_sgf("(;CA[UTF-8]AP[gib2sgf:0.1.0]HA[2];B[aa])"),
        "(;CA[UTF-8]HA[2];B[aa])"
    );
    assert_eq!(remove_app_version_from_sgf("AP[gib2sgf:]"), "");
    assert_eq!(remove_app_version_from_sgf("AP[gib2sgf:1]AP[gib2sgf:2]"), "AP[gib2sgf:2]");
    assert_eq!(remove_app_version_from_sgf("x]AP[gib2sgf:9.9]y]"), "x]y]");
    assert_eq!(remove_app_version_from_sgf("(;AP[gib2sgf:0.1.0"), "(;AP[gib2sgf:0.1.0");
    assert_eq!(remove_app_version_from_sgf("(;AP[other:1])"), "(;AP[other:1])");
    assert_eq!(remove_app_version_from_sgf(""), "");
    assert_eq!(remove_app_version_from_sgf("한AP[gib2sgf:국]글"), "한글");
}

#[test]
fn texts_of_two_versions_compare_equal_without_the_application() {
    let new = gib_to_sgf("STO 0 2 1 3 3").unwrap();
    let old = new.replace("gib2sgf:0.1.0", "gib2sgf:0.0.9");
    assert_ne!(old, new);
    assert_eq!(remove_app_version_from_sgf(&old), remove_app_version_from_sgf(&new));
}
