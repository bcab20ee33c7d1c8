use org_heading::headline::byte_slice_to_string;
use org_heading::headline::depth;
use org_heading::headline::headline;
use org_heading::headline::keyword;
use org_heading::headline::maybe_get_single_char;
use org_heading::headline::numeric_str_to_u8;
use org_heading::headline::priority;
use org_heading::headline::stats;
use org_heading::headline::stats_percentage;
use org_heading::headline::stats_ratio;
use org_heading::headline::tag_list;
use org_heading::headline::title_meta;
use org_heading::headline::title_rest;
use org_heading::headline::title_start;
use org_heading::headline::vec_byte_slice_to_vec_string;
use org_heading::headline::Headline;
use org_heading::headline::ParseError;
use org_heading::headline::Stat;
use org_heading::headline::TitleMeta;
use org_heading::node;
use org_heading::node_in_context;
use org_heading::OrgContext;
use org_heading::OrgNode;

fn s(x: &str) -> String {
    x.to_string()
}

#[test]
fn get_depth() {
    let input = b"***** TODO [#A] Heading";
    let (consumed, d) = depth(input).unwrap();
    assert_eq!((&input[consumed..], d), (&b" TODO [#A] Heading"[..], 5));
}

#[test]
fn get_keyword() {
    let input = b"TODO [#A] Heading";
    let (consumed, kw) = keyword(input).unwrap();
    assert_eq!((&input[consumed..], kw.as_str()), (&b" [#A] Heading"[..], "TODO"));
}

#[test]
fn get_priority() {
    let input = b"[#A] Heading";
    let (consumed, matched) = priority(input).unwrap();
    assert_eq!((&input[consumed..], matched), (&b" Heading"[..], &b"A"[..]));
}

#[test]
fn get_title_start() {
    let input = b"Start of the title [1/2] :tag:list: leftovers";
    let (consumed, frag) = title_start(input).unwrap();
    assert_eq!(
        (&input[consumed..], frag.as_str()),
        (&b"[1/2] :tag:list: leftovers"[..], "Start of the title ")
    );
}

#[test]
fn get_stats_percentage() {
    let input = b"[23%]";
    let (consumed, st) = stats_percentage(input).unwrap();
    assert_eq!((&input[consumed..], st), (&[][..], Stat::Percentage(23u8)));
}

#[test]
fn get_stats_ratio() {
    let input = b"[3/4]";
    let (consumed, st) = stats_ratio(input).unwrap();
    assert_eq!((&input[consumed..], st), (&[][..], Stat::Ratio(3u8, 4u8)));
    let input = b"[12/4]";
    let (consumed, st) = stats_ratio(input).unwrap();
    assert_eq!((&input[consumed..], st), (&[][..], Stat::Ratio(12u8, 4u8)));
}

#[test]
fn get_stats() {
    let input = b"[3/4]";
    let (consumed, st) = stats(input).unwrap();
    assert_eq!((&input[consumed..], st), (&[][..], Stat::Ratio(3u8, 4u8)));
    let input = b"[23%]";
    let (consumed, st) = stats_percentage(input).unwrap();
    assert_eq!((&input[consumed..], st), (&[][..], Stat::Percentage(23u8)));
}

#[test]
fn get_tag_list() {
    let input = b":one:TWO:3hree:four:";
    let (consumed, toks) = tag_list(input).unwrap();
    assert_eq!(
        (&input[consumed..], toks),
        (&[][..], vec![&b"one"[..], &b"TWO"[..], &b"3hree"[..], &b"four"[..]])
    );
}

#[test]
fn get_title_rest() {
    let input = b"leftovers\n";
    let (consumed, frag) = title_rest(input);
    assert_eq!((&input[consumed..], frag), (&b"\n"[..], &b"leftovers"[..]));
}

#[test]
fn get_title_meta() {
    let input = b"Some title [10%] :tag:list: rest\n";
    let (consumed, tm) = title_meta(input);
    assert_eq!(
        (&input[consumed..], tm),
        (
            &b"\n"[..],
            TitleMeta {
                start: Some(s("Some title ")),
                stats: Some(Stat::Percentage(10)),
                tags: vec![s("list"), s("tag")],
                leftovers: Some(s("rest")),
            }
        )
    );
}

#[test]
fn get_headline() {
    let input = b"**** TODO [#A] Some title [10%] :tag:list: rest\n";
    let (consumed, h) = headline(input).unwrap();
    assert_eq!(
        (&input[consumed..], h),
        (
            &b"\n"[..],
            Headline {
                depth: 4,
                keyword: Some(s("TODO")),
                priority: Some('A'),
                title: Some(s("Some title rest")),
                timestamp: None,
                stats: Some(Stat::Percentage(10)),
                tags: vec![s("list"), s("tag")],
            }
        )
    );
}

#[test]
fn get_node() {
    let input = b"*** TODO     [#A]   Some headline title :one:TWO:\n";
    let (consumed, n) = node(input).unwrap();
    assert_eq!(
        (&input[consumed..], n),
        (
            &[][..],
            OrgNode {
                headline: Headline {
                    depth: 3,
                    keyword: Some(s("TODO")),
                    priority: Some('A'),
                    title: Some(s("Some headline title")),
                    timestamp: None,
                    stats: None,
                    tags: vec![s("TWO"), s("one")],
                },
                scheduled: None,
                deadline: None,
                closed: None,
                properties: vec![],
                body: None,
            }
        )
    );
}

#[test]
fn depth_requires_a_marker() {
    assert_eq!(depth(b"no markers"), Err(ParseError::StructuralError));
    assert_eq!(depth(b""), Err(ParseError::StructuralError));
    assert!(matches!(headline(b"no markers\n"), Err(ParseError::StructuralError)));
}

#[test]
fn depth_counts_every_marker() {
    let (_, d) = depth(b"* x").unwrap();
    assert_eq!(d, 1);
    let (_, d) = depth(b"********** x").unwrap();
    assert_eq!(d, 10);
}

#[test]
fn markers_need_a_separator() {
    assert!(matches!(headline(b"*Heading\n"), Err(ParseError::StructuralError)));
}

#[test]
fn tags_ignore_order_and_duplicates() {
    let (_, tm1) = title_meta(b":a:b:");
    let (_, tm2) = title_meta(b":b:a:");
    let (_, tm3) = title_meta(b":a:a:b:");
    assert_eq!(tm1.tags, vec![s("a"), s("b")]);
    assert_eq!(tm1.tags, tm2.tags);
    assert_eq!(tm2.tags, tm3.tags);
}

#[test]
fn empty_tag_tokens_are_dropped() {
    let (_, tm) = title_meta(b":a::b:");
    assert_eq!(tm.tags, vec![s("a"), s("b")]);
    let (_, tm) = title_meta(b"::");
    assert_eq!(tm.tags, Vec::<String>::new());
}

#[test]
fn stats_has_exactly_two_forms() {
    assert_eq!(stats(b"[10%]"), Ok((5, Stat::Percentage(10))));
    assert_eq!(stats(b"[3/4]"), Ok((5, Stat::Ratio(3, 4))));
    assert_eq!(stats(b"[abc]"), Err(ParseError::CookieShapeError));
    assert_eq!(stats(b"[10?]"), Err(ParseError::CookieShapeError));
    assert_eq!(stats(b"10%]"), Err(ParseError::CookieShapeError));
}

#[test]
fn rejected_stats_text_becomes_leftover() {
    let (_, h) = headline(b"* t [abc]\n").unwrap();
    assert_eq!(h.stats, None);
    assert_eq!(h.title.as_deref(), Some("t [abc]"));
}

#[test]
fn numeric_overflow_is_its_own_error() {
    assert_eq!(numeric_str_to_u8(b"255"), Ok(255));
    assert_eq!(numeric_str_to_u8(b"256"), Err(ParseError::NumericOverflowError));
    assert_eq!(numeric_str_to_u8(b"300"), Err(ParseError::NumericOverflowError));
    assert_eq!(stats(b"[300%]"), Err(ParseError::NumericOverflowError));
    assert_eq!(stats(b"[3/400]"), Err(ParseError::NumericOverflowError));
}

#[test]
fn overflowed_stats_leave_the_heading_intact() {
    let (_, h) = headline(b"* t [300%]\n").unwrap();
    assert_eq!(h.depth, 1);
    assert_eq!(h.stats, None);
    assert_eq!(h.title.as_deref(), Some("t [300%]"));
}

#[test]
fn invalid_text_is_an_encoding_error() {
    assert_eq!(byte_slice_to_string(&[0xff, 0xfe]), Err(ParseError::EncodingError));
    assert_eq!(byte_slice_to_string(b"plain"), Ok(s("plain")));
    assert_eq!(
        vec_byte_slice_to_vec_string(vec![&b"ok"[..], &[0xffu8][..]]),
        Err(ParseError::EncodingError)
    );
    assert_eq!(
        vec_byte_slice_to_vec_string(vec![&b"a"[..], &b"b"[..]]),
        Ok(vec![s("a"), s("b")])
    );
}

#[test]
fn invalid_title_text_leaves_the_title_absent() {
    let (_, h) = headline(b"* \xff\xfe\n").unwrap();
    assert_eq!(h.depth, 1);
    assert_eq!(h.title, None);
}

#[test]
fn single_char_capture() {
    assert_eq!(maybe_get_single_char(Some(&b"A"[..])), Some('A'));
    assert_eq!(maybe_get_single_char(Some(&b"AB"[..])), None);
    assert_eq!(maybe_get_single_char(Some(&b""[..])), None);
    assert_eq!(maybe_get_single_char(None), None);
}

#[test]
fn heading_only_scenario() {
    let (_, h) = headline(b"* Heading only\n").unwrap();
    assert_eq!(
        h,
        Headline {
            depth: 1,
            keyword: None,
            priority: None,
            title: Some(s("Heading only")),
            timestamp: None,
            stats: None,
            tags: vec![],
        }
    );
}

#[test]
fn keyword_and_tags_scenario() {
    let (_, h) = headline(b"** DONE :a:b:\n").unwrap();
    assert_eq!(
        h,
        Headline {
            depth: 2,
            keyword: Some(s("DONE")),
            priority: None,
            title: None,
            timestamp: None,
            stats: None,
            tags: vec![s("a"), s("b")],
        }
    );
}

#[test]
fn malformed_priority_scenario() {
    let (_, h) = headline(b"* [#AB] text\n").unwrap();
    assert_eq!(h.priority, None);
    assert_eq!(h.title.as_deref(), Some("[#AB] text"));
}

#[test]
fn separator_whitespace_is_excluded_scenario() {
    let (_, h) = headline(b"*** TODO     [#A]   Some headline title :one:TWO:\n").unwrap();
    assert_eq!(h.depth, 3);
    assert_eq!(h.keyword.as_deref(), Some("TODO"));
    assert_eq!(h.priority, Some('A'));
    assert_eq!(h.title.as_deref(), Some("Some headline title"));
    assert_eq!(h.tags, vec![s("TWO"), s("one")]);
}

#[test]
fn keyword_needs_a_separator() {
    let (_, h) = headline(b"* TODOx\n").unwrap();
    assert_eq!(h.keyword, None);
    assert_eq!(h.title.as_deref(), Some("TODOx"));
}

#[test]
fn priority_needs_a_separator() {
    let (_, h) = headline(b"* [#A]x\n").unwrap();
    assert_eq!(h.priority, None);
    assert_eq!(h.title.as_deref(), Some("[#A]x"));
}

#[test]
fn context_extends_the_keyword_set() {
    let ctx = OrgContext { keywords: vec![s("WAIT"), s("TODO")], inlinetask_min_level: 15 };
    let (_, n) = node_in_context(b"* WAIT for review\n", &ctx).unwrap();
    assert_eq!(n.headline.keyword.as_deref(), Some("WAIT"));
    assert_eq!(n.headline.title.as_deref(), Some("for review"));
    let (_, n) = node_in_context(b"* DONE x\n", &ctx).unwrap();
    assert_eq!(n.headline.keyword, None);
    assert_eq!(n.headline.title.as_deref(), Some("DONE x"));
}

#[test]
fn default_context_uses_the_baseline_keywords() {
    let ctx = OrgContext::new();
    let (_, n) = node_in_context(b"* DONE x\n", &ctx).unwrap();
    assert_eq!(n.headline.keyword.as_deref(), Some("DONE"));
}

#[test]
fn title_trailing_separator_whitespace_is_trimmed() {
    let (_, h) = headline(b"* title\t\n").unwrap();
    assert_eq!(h.title.as_deref(), Some("title"));
    let (_, h) = headline(b"* title\r\n").unwrap();
    assert_eq!(h.title.as_deref(), Some("title"));
}

#[test]
fn inner_spacing_of_the_title_is_preserved() {
    let (_, h) = headline(b"* a  b [10%] :t: c  d\n").unwrap();
    assert_eq!(h.title.as_deref(), Some("a  b c  d"));
    assert_eq!(h.stats, Some(Stat::Percentage(10)));
    assert_eq!(h.tags, vec![s("t")]);
}

#[test]
fn percentage_values_are_syntactic() {
    assert_eq!(stats(b"[255%]"), Ok((6, Stat::Percentage(255))));
    assert_eq!(stats(b"[9/4]"), Ok((5, Stat::Ratio(9, 4))));
}
