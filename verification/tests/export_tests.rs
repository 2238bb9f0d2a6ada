use lib::export::{markdown_text, plain_text, times_showable_check};
use lib::note::Note;

fn sample() -> Note {
    let mut n = Note::new_at(4, "Trip".to_string(), 1);
    n.add_version_at("pack bags".to_string(), 1, 2);
    n.tags.push("travel".to_string());
    n
}

#[test]
fn markdown_rendering() {
    let mut n = sample();
    assert_eq!(
        markdown_text(&n),
        "# Trip\n\n**ID:** 4  \n**Tags:** general, travel  \n**Color:** default  \n\
         **Created:** 01 Jan 1970  05:30:01 IST  \n**Updated:** 01 Jan 1970  05:30:02 IST  \n\
         **Versions:** 1  \n\n---\n\n\
         ## Version 1 _(2words, 9chars, 01 Jan 1970  05:30:01 IST)_\n\npack bags\n\n"
    );
    n.links = vec![2, 9];
    assert!(markdown_text(&n).contains("**Linked Notes:** [[2]], [[9]]  \n\n---"));
}

#[test]
fn plain_text_rendering() {
    let n = sample();
    let expected = format!(
        "NOTE: Trip\nID: 4 | Tags: general, travel | Color: default | Versions: 1 | Created: 01 Jan 1970  05:30:01 IST | Updated: 01 Jan 1970  05:30:02 IST\n{}\n\nVersion 1 (2 words, 9 chars, 01 Jan 1970  05:30:01 IST):\npack bags\n",
        "=".repeat(50)
    );
    assert_eq!(plain_text(&n), expected);
}

#[test]
fn showable_times() {
    let mut n = sample();
    assert!(times_showable_check(&n));
    n.updated_at = u64::MAX;
    assert!(!times_showable_check(&n));
}
