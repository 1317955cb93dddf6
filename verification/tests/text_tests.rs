use orchard::keys::{FullViewingKey, SpendingKey};
use zcash_vote_engine::election::{create_election, download_progress, ElectionTemplate};
use zcash_vote_engine::element::FieldElement;
use zcash_vote_engine::error::VoteError;
use zcash_vote_engine::keys::{
    accepts_key, check_candidate_addresses, check_candidates, derive_candidate_address,
    derive_candidate_addresses, election_seed, same_address, validate_key, Scope,
};
use zcash_vote_engine::merkle::merkle_root;
use zcash_vote_engine::trees::reference_state;
use zcash_vote_engine::props::{get_prop, Props};
use zcash_vote_engine::state::{
    get_election, load_election, open_db, save_db, set_election, store_election, AppState,
};
use zcash_vote_engine::text::{decimal, is_white_space, parse_u32, split, trimmed_lines};

fn strings(parts: &[&str]) -> Vec<String> {
    parts.iter().map(|p| p.to_string()).collect()
}

#[test]
fn split_is_what_str_split_gives() {
    for text in ["", ",", "a", "a,b", "a,,b", ",a,", "http://x,http://y", ",,", "é,ü"] {
        let expected: Vec<String> = text.split(",").map(String::from).collect();
        assert_eq!(split(text, ','), expected, "{text:?}");
    }
    assert_eq!(split("a,b", ','), strings(&["a", "b"]));
    assert_eq!(split("", ','), strings(&[""]));
}

#[test]
fn lines_are_what_trim_and_split_give() {
    for text in [
        "",
        "  ",
        "yes",
        "yes\nno",
        "\n yes\nno \n\n",
        "  yes \n\n no\t",
        "a\n\nb",
        "\u{3000}a\u{a0}\nb\u{2003}",
        "a\r\nb\r\n",
    ] {
        let expected: Vec<String> = text.trim().split("\n").map(String::from).collect();
        assert_eq!(trimmed_lines(text), expected, "{text:?}");
    }
    assert_eq!(trimmed_lines("\n yes\nno \n\n"), strings(&["yes", "no"]));
    assert_eq!(trimmed_lines("  yes \n\n no\t"), strings(&["yes ", "", " no"]));
}

#[test]
fn white_space_is_what_char_says() {
    for code in 0..0x3100u32 {
        if let Some(c) = char::from_u32(code) {
            assert_eq!(is_white_space(c), c.is_whitespace(), "{code:#x}");
        }
    }
    assert!(!is_white_space('\u{feff}'));
    assert!(!is_white_space('\u{200b}'));
}

#[test]
fn numbers_are_read_as_parse_reads_them() {
    for text in [
        "0", "7", "42", "007", "+5", "+", "", "-1", "-0", " 1", "1 ", "1a", "4294967295",
        "4294967296", "99999999999999999999", "+4294967295", "++1", "1+", "٣", "12345678901",
        "00000000000000000004294967295",
    ] {
        assert_eq!(parse_u32(text), text.parse::<u32>().ok(), "{text:?}");
    }
    assert_eq!(parse_u32("42"), Some(42));
    assert_eq!(parse_u32("4294967296"), None);
}

#[test]
fn numbers_are_written_as_to_string_writes_them() {
    for n in [0u32, 1, 9, 10, 11, 99, 100, 101, 65535, 1000000, 4294967295] {
        assert_eq!(decimal(n), n.to_string());
        assert_eq!(parse_u32(&decimal(n)), Some(n));
    }
    assert_eq!(decimal(120), "120");
}

#[test]
fn progress_is_half_the_percentage_of_the_window() {
    assert_eq!(download_progress(100, 100, 200), 0);
    assert_eq!(download_progress(150, 100, 200), 25);
    assert_eq!(download_progress(199, 100, 200), 49);
    assert_eq!(download_progress(200, 100, 200), 50);
    assert_eq!(download_progress(1, 0, 3), 16);
    assert_eq!(download_progress(u32::MAX, 0, u32::MAX), 50);
    assert_eq!(download_progress(u32::MAX - 1, 0, u32::MAX), 49);
}

fn template(choices: &str) -> ElectionTemplate {
    ElectionTemplate {
        name: "board".to_string(),
        start: 10,
        end: 20,
        question: "who?".to_string(),
        choices: choices.to_string(),
        signature_required: true,
    }
}

#[test]
fn election_pairs_each_choice_with_its_address() {
    let t = template("\nAda\nGrace Hopper\n\n");
    assert_eq!(t.choice_labels(), strings(&["Ada", "Grace Hopper"]));
    let ranges = vec![FieldElement::from_small(3), FieldElement::from_small(9)];
    let cmxs = vec![FieldElement::from_small(4), FieldElement::from_small(5), FieldElement::from_small(6)];
    let nf = merkle_root(&ranges);
    let cmx = merkle_root(&cmxs);
    let election = create_election(t, strings(&["addr0", "addr1"]), &ranges, &cmxs).unwrap();
    assert_eq!(election.name, "board");
    assert_eq!(election.start_height, 10);
    assert_eq!(election.end_height, 20);
    assert_eq!(election.question, "who?");
    assert!(election.signature_required);
    assert_eq!(election.candidates.len(), 2);
    assert_eq!(election.candidates[0].choice, "Ada");
    assert_eq!(election.candidates[0].address, "addr0");
    assert_eq!(election.candidates[1].choice, "Grace Hopper");
    assert_eq!(election.candidates[1].address, "addr1");
    assert_eq!(election.nf.to_bytes(), nf.to_bytes());
    assert_eq!(election.cmx.to_bytes(), cmx.to_bytes());
    assert_ne!(nf.to_bytes(), cmx.to_bytes());
    // The frontier is the one of the commitment tree: its root is the commitment root.
    let frontier = election.cmx_frontier.as_ref().unwrap();
    assert_eq!(frontier.position(), 2);
    assert_eq!(frontier.root().to_bytes(), cmx.to_bytes());
    assert!(election.has_unique_addresses());
    // So the election can be audited, and a ballot anchored to its root passes.
    assert!(zcash_vote_engine::audit::Audit::new(&election).unwrap().pool().is_anchor(&cmx));
}

#[test]
fn election_over_an_empty_pool_has_no_frontier() {
    let election = create_election(template("a"), strings(&["x"]), &Vec::new(), &Vec::new()).unwrap();
    assert!(election.cmx_frontier.is_none());
    assert_eq!(election.cmx.to_bytes(), merkle_root(&Vec::new()).to_bytes());
    assert_eq!(election.nf.to_bytes(), election.cmx.to_bytes());
    let (nf, cmx, frontier) = reference_state(&vec![FieldElement::from_small(1)], &Vec::new());
    assert!(frontier.is_none());
    assert_ne!(nf.to_bytes(), cmx.to_bytes());
}

#[test]
fn election_needs_one_address_for_each_choice() {
    let list = vec![FieldElement::from_small(3)];
    assert!(create_election(template("a\nb"), strings(&["x"]), &list, &list).is_none());
    assert!(create_election(template("a\nb"), strings(&["x", "y", "z"]), &list, &list).is_none());
    // No choice at all still makes one, empty, line.
    assert!(create_election(template("  "), strings(&[]), &list, &list).is_none());
    let lone = create_election(template("  "), strings(&["x"]), &list, &list).unwrap();
    assert_eq!(lone.candidates[0].choice, "");
}

#[test]
fn shared_address_is_noticed() {
    let list = vec![FieldElement::from_small(3)];
    let election = create_election(template("a\nb\nc"), strings(&["x", "y", "x"]), &list, &list).unwrap();
    assert!(!election.has_unique_addresses());
    let election = create_election(template("a\na\na"), strings(&["x", "y", "z"]), &list, &list).unwrap();
    assert!(election.has_unique_addresses());
}

#[test]
fn key_is_a_seed_phrase_or_a_viewing_key() {
    let phrase = "bottom drive obey lake curtain smoke basket hold race lonely fit walk";
    assert_eq!(validate_key(phrase), Ok(true));
    let wrong_checksum = "bottom drive obey lake curtain smoke basket hold race lonely fit bottom";
    assert_eq!(validate_key(wrong_checksum), Ok(false));
    assert_eq!(validate_key(""), Ok(false));
    assert_eq!(validate_key("uview1notakey"), Ok(false));
    let ufvk = "uview1cgrqnry478ckvpr0f580t6fsahp0a5mj2e9xl7hv2d2jd4ldzy449mwwk2l9yeuts85wjls6hjtghdsy5vhhvmjdw3jxl3cxhrg3vs296a3czazrycrr5cywjhwc5c3ztfyjdhmz0exvzzeyejamyp0cr9z8f9wj0953fzht0m4lenk94t70ruwgjxag2tvp63wn9ftzhtkh20gyre3w5s24f6wlgqxnjh40gd2lxe75sf3z8h5y2x0atpxcyf9t3em4h0evvsftluruqne6w4sm066sw0qe5y8qg423grple5fftxrqyy7xmqmatv7nzd7tcjadu8f7mqz4l83jsyxy4t8pkayytyk7nrp467ds85knekdkvnd7hqkfer8mnqd7pv";
    assert_eq!(validate_key(ufvk), Ok(true));
    assert!(accepts_key(true, false));
    assert!(accepts_key(false, true));
    assert!(accepts_key(true, true));
    assert!(!accepts_key(false, false));
}

#[test]
fn candidate_addresses_must_be_the_derived_ones() {
    let a = [1u8; 43];
    let mut b = [1u8; 43];
    b[42] = 2;
    assert!(same_address(&a, &a));
    assert!(!same_address(&a, &b));
    assert_eq!(check_candidate_addresses(&vec![a, b], &vec![a, b]), Ok(()));
    assert_eq!(check_candidate_addresses(&vec![], &vec![a]), Ok(()));
    assert_eq!(
        check_candidate_addresses(&vec![a, b, a], &vec![a, a, b]),
        Err(VoteError::InvalidCandidateAddress(1))
    );
    assert_eq!(
        check_candidate_addresses(&vec![b], &vec![a]),
        Err(VoteError::InvalidCandidateAddress(0))
    );
    assert_eq!(
        check_candidate_addresses(&vec![a, b], &vec![a]),
        Err(VoteError::InvalidCandidateAddress(1))
    );
}

fn reference_address(seed: &[u8; 64], index: u32) -> [u8; 43] {
    let sk = SpendingKey::from_zip32_seed(seed, 133, index.try_into().unwrap()).unwrap();
    FullViewingKey::from(&sk).address_at(0u64, orchard::keys::Scope::External).to_raw_address_bytes()
}

#[test]
fn candidate_addresses_come_from_the_seed() {
    let phrase = "bottom drive obey lake curtain smoke basket hold race lonely fit walk";
    let seed = <bip0039::Mnemonic>::from_phrase(phrase).unwrap().to_seed("vote");
    assert_eq!(election_seed(phrase), Some(seed));
    assert_eq!(election_seed(&format!("  {}  ", phrase.replace(' ', "\t "))), Some(seed));
    assert_ne!(
        election_seed(phrase),
        Some(<bip0039::Mnemonic>::from_phrase(phrase).unwrap().to_seed(""))
    );
    assert_eq!(election_seed("bottom drive obey"), None);
    assert_eq!(election_seed(""), None);
    let first = derive_candidate_address(&seed, 0).unwrap();
    let second = derive_candidate_address(&seed, 1).unwrap();
    assert_eq!(first, reference_address(&seed, 0));
    assert_eq!(second, reference_address(&seed, 1));
    assert_ne!(first, second);
    assert_ne!(first, derive_candidate_address(&[7u8; 64], 0).unwrap());
    // Account numbers stop below two to the power 31.
    assert!(derive_candidate_address(&seed, 1 << 31).is_none());
    assert!(derive_candidate_address(&seed, (1 << 31) - 1).is_some());

    assert_eq!(check_candidates(&seed, &vec![]), Ok(()));
    assert_eq!(check_candidates(&seed, &vec![first, second]), Ok(()));
    assert_eq!(
        check_candidates(&seed, &vec![second, first]),
        Err(VoteError::InvalidCandidateAddress(0))
    );
    assert_eq!(
        check_candidates(&seed, &vec![first, first]),
        Err(VoteError::InvalidCandidateAddress(1))
    );
    let third = derive_candidate_address(&seed, 2).unwrap();
    assert_eq!(
        check_candidates(&[7u8; 64], &vec![first, second, third]),
        Err(VoteError::InvalidCandidateAddress(0))
    );
    assert_eq!(check_candidates(&seed, &vec![first, second, third]), Ok(()));

    // The list for an election is the addresses of the accounts 0, 1, 2, ... in order.
    assert_eq!(derive_candidate_addresses(&seed, 3), Some(vec![first, second, third]));
    assert_eq!(derive_candidate_addresses(&seed, 0), Some(vec![]));
    let list = derive_candidate_addresses(&seed, 5).unwrap();
    assert_eq!(check_candidates(&seed, &list), Ok(()));
    for (k, address) in list.iter().enumerate() {
        assert_eq!(*address, reference_address(&seed, k as u32));
        assert!(list.iter().filter(|a| *a == address).count() == 1);
    }
}

#[test]
fn later_value_of_a_prop_overrides_the_earlier() {
    let mut props = Props::new();
    assert_eq!(props.load_prop("height"), None);
    assert_eq!(props.get_sync_height(), Ok(None));
    props.store_prop("height", "12");
    props.store_prop("key", "k");
    props.store_prop("height", "13");
    assert_eq!(props.load_prop("height"), Some("13".to_string()));
    assert_eq!(get_prop("key", &props), Some("k".to_string()));
    assert_eq!(get_prop("Key", &props), None);
    assert_eq!(props.get_sync_height(), Ok(Some(13)));
    props.store_height(4000000000);
    assert_eq!(props.get_sync_height(), Ok(Some(4000000000)));
    props.store_prop("height", "many");
    assert!(matches!(props.get_sync_height(), Err(VoteError::TransientIO(_))));
}

#[test]
fn session_is_written_down_and_taken_up_again() {
    let mut state = AppState::default();
    assert_eq!(state.urls.len(), 0);
    assert_eq!(state.scope, Scope::External);
    let list = vec![FieldElement::from_small(3)];
    let election = create_election(template("a\nb"), strings(&["x", "y"]), &list, &list).unwrap();
    set_election(&mut state, "http://a,http://b", election.clone(), "secret".to_string(), true);
    assert_eq!(state.urls, strings(&["http://a", "http://b"]));
    assert_eq!(state.key, "secret");
    assert_eq!(state.scope, Scope::Internal);
    assert_eq!(get_election(&state).candidates.len(), 2);

    let mut props = Props::new();
    save_db(&state, "{election}", &mut props);
    assert_eq!(props.load_prop("url"), Some("http://a,http://b".to_string()));
    assert_eq!(props.load_prop("election"), Some("{election}".to_string()));
    assert_eq!(props.load_prop("key"), Some("secret".to_string()));
    assert_eq!(props.load_prop("internal"), Some("true".to_string()));

    let stored = load_election(&props).unwrap();
    assert_eq!(stored.urls, strings(&["http://a", "http://b"]));
    assert_eq!(stored.election, "{election}");
    assert_eq!(stored.key, "secret");
    assert_eq!(stored.scope, Scope::Internal);

    let mut fresh = AppState::default();
    assert!(open_db(&mut fresh, &props, election));
    assert_eq!(fresh.urls, strings(&["http://a", "http://b"]));
    assert_eq!(fresh.key, "secret");
    assert_eq!(fresh.scope, Scope::Internal);
    assert_eq!(fresh.election.candidates[1].address, "y");
}

#[test]
fn scope_is_external_unless_written_down_as_true() {
    let mut state = AppState::default();
    let list = vec![FieldElement::from_small(3)];
    let election = create_election(template("a"), strings(&["x"]), &list, &list).unwrap();
    set_election(&mut state, "m", election.clone(), "k".to_string(), false);
    assert_eq!(state.scope, Scope::External);
    let mut props = Props::new();
    save_db(&state, "e", &mut props);
    assert_eq!(props.load_prop("internal"), Some("false".to_string()));
    assert_eq!(load_election(&props).unwrap().scope, Scope::External);

    let mut props = Props::new();
    store_election(&mut props, "m", "e", "k", "TRUE");
    assert_eq!(load_election(&props).unwrap().scope, Scope::External);
    let mut props = Props::new();
    props.store_prop("url", "m");
    props.store_prop("election", "e");
    assert!(load_election(&props).is_none());
    assert!(!open_db(&mut state, &props, election));
    props.store_prop("key", "k");
    assert_eq!(load_election(&props).unwrap().scope, Scope::External);
}
