use photo_map::encoding::{accepted, gzip_preferred, negotiate, Coding, Page, Served};

#[test]
fn neither_accepted_sends_raw() {
    assert_eq!(negotiate(&vec![Coding::Other], 10, 20), Served::Raw);
    assert_eq!(negotiate(&vec![], 10, 20), Served::Raw);
}

#[test]
fn only_gzip_accepted_sends_gzip_even_if_larger() {
    assert_eq!(negotiate(&vec![Coding::Gzip], 30, 20), Served::Gzip);
}

#[test]
fn only_deflate_accepted_sends_deflate_even_if_larger() {
    assert_eq!(negotiate(&vec![Coding::Other, Coding::Deflate], 10, 20), Served::Deflate);
}

#[test]
fn both_accepted_sends_smaller() {
    assert_eq!(negotiate(&vec![Coding::Deflate, Coding::Gzip], 10, 20), Served::Gzip);
    assert_eq!(negotiate(&vec![Coding::Gzip, Coding::Deflate], 30, 20), Served::Deflate);
}

#[test]
fn both_accepted_tie_sends_deflate() {
    assert_eq!(negotiate(&vec![Coding::Gzip, Coding::Deflate], 20, 20), Served::Deflate);
}

#[test]
fn accepted_reads_codings() {
    assert_eq!(accepted(&vec![Coding::Other, Coding::Gzip]), (true, false));
    assert_eq!(accepted(&vec![Coding::Deflate, Coding::Deflate]), (false, true));
    assert_eq!(gzip_preferred(3, 4), true);
    assert_eq!(gzip_preferred(4, 4), false);
}

#[test]
fn page_compresses_and_responds() {
    let raw: Vec<u8> = "hello hello hello hello hello hello hello hello\n".repeat(20).into_bytes();
    let page = Page::new(raw.clone()).unwrap();
    let (r, g, d) = page.sizes();
    assert_eq!(r, raw.len());
    // both compressed forms differ from the raw bytes and are smaller
    assert!(g < r);
    assert!(d < r);
    let (served, body) = page.respond(&vec![Coding::Gzip]);
    assert_eq!(served, Served::Gzip);
    assert_eq!(body.len(), g);
    assert_eq!(&body[..2], &[0x1f, 0x8b]); // gzip magic
    let (served, body) = page.respond(&vec![Coding::Deflate]);
    assert_eq!(served, Served::Deflate);
    assert_eq!(body.len(), d);
    assert_ne!(body, &raw);
    let (served, body) = page.respond(&vec![]);
    assert_eq!(served, Served::Raw);
    assert_eq!(body, &raw);
}
