use youngl_music::timestamp::{digit_of, parse_timestamp, MAX_MILLIS};
use youngl_music::text::char_to_lower;
use youngl_music::lyrics::{
    load_lyrics_from_lrc, load_lyrics_from_song, load_lyrics_from_str,
    lyrics_tag_format, merge_line, resolve_lyrics, LyricLine, TagFormat, VORBIS_LYRICS_FIELD,
};

fn line(time_ms: u64, text: &str) -> LyricLine {
    LyricLine { time_ms, text: text.to_string() }
}

fn parse(text: &str) -> Vec<LyricLine> {
    load_lyrics_from_str(text.to_string())
}

#[test]
fn same_timestamp_lines_are_joined_in_file_order() {
    let lines = parse("[00:01.50]Hello\n[00:01.50]World");
    assert_eq!(lines, vec![line(1500, "Hello\nWorld")]);
}

#[test]
fn plain_text_is_one_line_at_zero() {
    let lines = parse("  just some words\nover two lines \n");
    assert_eq!(lines, vec![line(0, "just some words\nover two lines")]);
}

#[test]
fn empty_text_is_one_empty_line_at_zero() {
    assert_eq!(parse(""), vec![line(0, "")]);
    assert_eq!(parse(" \t\n"), vec![line(0, "")]);
}

#[test]
fn plain_text_is_trimmed_of_unicode_white_space() {
    let lines = parse("\u{3000}\u{a0}歌詞\u{2003}\u{85}");
    assert_eq!(lines, vec![line(0, "歌詞")]);
}

#[test]
fn unordered_lines_come_out_by_time() {
    let lines = parse("[00:30.00]c\n[00:10.00]a\n[01:00.00]d\n[00:20.00]b");
    assert_eq!(lines, vec![line(10_000, "a"), line(20_000, "b"), line(30_000, "c"), line(60_000, "d")]);
}

#[test]
fn output_is_strictly_ascending_for_mixed_input() {
    let text = "[02:00]x\n[00:05.1]y\n[02:00.000]z\n[00:00]w\n[00:05.10]v\nnoise\n[xx:yy]bad\n[01:01.999]u";
    let lines = parse(text);
    for pair in lines.windows(2) {
        assert!(pair[0].time_ms < pair[1].time_ms);
    }
    assert_eq!(
        lines,
        vec![line(0, "w"), line(5_100, "y\nv"), line(61_999, "u"), line(120_000, "x\nz")]
    );
}

#[test]
fn minutes_and_seconds_add_up() {
    assert_eq!(parse("[03:25.75]la"), vec![line(205_750, "la")]);
    assert_eq!(parse("[1:2]la"), vec![line(62_000, "la")]);
    assert_eq!(parse("[100:00]la"), vec![line(6_000_000, "la")]);
}

#[test]
fn seconds_are_not_held_below_sixty() {
    assert_eq!(parse("[00:90]la"), vec![line(90_000, "la")]);
}

#[test]
fn fractions_round_to_the_nearest_millisecond() {
    assert_eq!(parse("[00:00.0004]a"), vec![line(0, "a")]);
    assert_eq!(parse("[00:00.0005]a"), vec![line(1, "a")]);
    assert_eq!(parse("[00:00.9995]a"), vec![line(1000, "a")]);
    assert_eq!(parse("[00:01.23449]a"), vec![line(1234, "a")]);
    assert_eq!(parse("[00:01.5]a"), vec![line(1500, "a")]);
    assert_eq!(parse("[00:01.05]a"), vec![line(1050, "a")]);
}

#[test]
fn a_point_may_stand_first_or_last_in_the_seconds() {
    assert_eq!(parse("[00:5.]a"), vec![line(5000, "a")]);
    assert_eq!(parse("[00:.5]a"), vec![line(500, "a")]);
}

#[test]
fn lines_that_are_no_timestamp_are_passed_over() {
    let text = "[ar:Someone]\n[00:.]a\n[:10]b\n[00:]c\n[0a:10]d\n[00:1x]e\n[00:1.2.3]f\n[-1:00]g\n[00:-0.5]h\n[ 1:00]i\n[1e:00]j\n[00:nan]k\n[-inf:0]l\n[00:12]kept";
    assert_eq!(parse(text), vec![line(12_000, "kept")]);
}

#[test]
fn text_with_brackets_but_no_timed_line_is_empty() {
    assert_eq!(parse("[ti:Title]\n[by:me]"), Vec::<LyricLine>::new());
    assert_eq!(parse("]before["), Vec::<LyricLine>::new());
    assert_eq!(parse("["), Vec::<LyricLine>::new());
}

#[test]
fn a_closing_bracket_before_the_opening_one_is_no_line() {
    assert_eq!(parse("]x[00:01]y\n[00:02]z"), vec![line(2000, "z")]);
}

#[test]
fn fields_after_a_second_colon_are_not_read() {
    assert_eq!(parse("[00:01:50]a"), vec![line(1000, "a")]);
    assert_eq!(parse("[00:01:xx]a"), vec![line(1000, "a")]);
}

#[test]
fn the_timestamp_need_not_open_the_line() {
    assert_eq!(parse("intro [00:02.00] words "), vec![line(2000, "words")]);
}

#[test]
fn only_the_first_timestamp_of_a_line_counts() {
    assert_eq!(parse("[00:01.00][00:05.00]twice"), vec![line(1000, "[00:05.00]twice")]);
}

#[test]
fn words_are_trimmed() {
    assert_eq!(parse("[00:01.00] \t spaced out \r\n[00:02.00]\u{3000}wide\u{3000}"),
        vec![line(1000, "spaced out"), line(2000, "wide")]);
}

#[test]
fn carriage_returns_at_line_ends_do_not_count() {
    assert_eq!(parse("[00:01.00]a\r\n[00:02.00]b\r\n"), vec![line(1000, "a"), line(2000, "b")]);
}

#[test]
fn empty_words_open_an_entry_but_are_not_joined_later() {
    assert_eq!(parse("[00:01.00]\n[00:01.00]a\n[00:01.00]\n[00:01.00]b"), vec![line(1000, "\na\nb")]);
    assert_eq!(parse("[00:03.00]"), vec![line(3000, "")]);
    assert_eq!(parse("[00:03.00]a\n[00:03.00]   "), vec![line(3000, "a")]);
}

#[test]
fn timestamps_that_differ_only_below_a_millisecond_are_joined() {
    assert_eq!(parse("[00:01.5001]a\n[00:01.50]b\n[00:01.4996]c"), vec![line(1500, "a\nb\nc")]);
}

#[test]
fn huge_timestamps_are_held_at_the_largest() {
    let largest = i64::MAX as u64;
    let lines = parse("[99999999999999999999999999:00]far\n[00:18446744073709551615]also far\n[00:01]near\n[inf:0]never\n[0:1e300]late");
    assert_eq!(lines, vec![line(1000, "near"), line(largest, "far\nalso far\nnever\nlate")]);
    assert_eq!(parse("[153722867280912:55.807]edge"), vec![line(largest, "edge")]);
    assert_eq!(parse("[153722867280912:55.806]edge"), vec![line(largest - 1, "edge")]);
}

#[test]
fn non_ascii_words_are_kept() {
    assert_eq!(parse("[00:12.34]你好，世界\n[00:15.00]¡Olé!"),
        vec![line(12_340, "你好，世界"), line(15_000, "¡Olé!")]);
}

#[test]
fn non_ascii_digits_are_no_digits() {
    assert_eq!(parse("[００:０１]wide digits\n[00:07]ok"), vec![line(7000, "ok")]);
}

#[test]
fn merge_line_keeps_order_and_joins() {
    let mut set = vec![line(10, "a"), line(30, "c")];
    merge_line(&mut set, line(20, "b"));
    assert_eq!(set, vec![line(10, "a"), line(20, "b"), line(30, "c")]);
    merge_line(&mut set, line(30, "more"));
    assert_eq!(set, vec![line(10, "a"), line(20, "b"), line(30, "c\nmore")]);
    merge_line(&mut set, line(5, "first"));
    merge_line(&mut set, line(40, "last"));
    merge_line(&mut set, line(20, ""));
    assert_eq!(set, vec![line(5, "first"), line(10, "a"), line(20, "b"), line(30, "c\nmore"), line(40, "last")]);
}

#[test]
fn sidecar_text_is_parsed_and_absence_is_no_lyrics() {
    assert_eq!(load_lyrics_from_lrc(None), None);
    assert_eq!(load_lyrics_from_lrc(Some("[00:01.00]a".to_string())), Some(vec![line(1000, "a")]));
    assert_eq!(load_lyrics_from_lrc(Some(String::new())), Some(vec![line(0, "")]));
}

#[test]
fn extensions_pick_the_tag_format_whatever_their_case() {
    assert_eq!(lyrics_tag_format(Some("mp3")), Some(TagFormat::Id3));
    assert_eq!(lyrics_tag_format(Some("MP3")), Some(TagFormat::Id3));
    assert_eq!(lyrics_tag_format(Some("Flac")), Some(TagFormat::Flac));
    assert_eq!(lyrics_tag_format(Some("m4a")), Some(TagFormat::Mp4));
    assert_eq!(lyrics_tag_format(Some("mP4")), Some(TagFormat::Mp4));
    assert_eq!(lyrics_tag_format(Some("ogg")), None);
    assert_eq!(lyrics_tag_format(Some("wav")), None);
    assert_eq!(lyrics_tag_format(Some("")), None);
    assert_eq!(lyrics_tag_format(Some("mp3 ")), None);
    assert_eq!(lyrics_tag_format(Some("ｍｐ３")), None);
    assert_eq!(lyrics_tag_format(None), None);
}

#[test]
fn embedded_lyrics_are_read_with_the_format_of_the_extension() {
    let lyrics = load_lyrics_from_song(Some("FLAC"), |format| {
        assert_eq!(format, TagFormat::Flac);
        Some("[00:02.00]from the tag".to_string())
    });
    assert_eq!(lyrics, Some(vec![line(2000, "from the tag")]));
    let none = load_lyrics_from_song(Some("mp3"), |format| {
        assert_eq!(format, TagFormat::Id3);
        None
    });
    assert_eq!(none, None);
}

#[test]
fn files_without_a_lyrics_format_are_not_read() {
    let reads = std::cell::Cell::new(0);
    let read = |_format: TagFormat| {
        reads.set(reads.get() + 1);
        Some("[00:01.00]x".to_string())
    };
    assert_eq!(load_lyrics_from_song(Some("ogg"), &read), None);
    assert_eq!(load_lyrics_from_song(Some("txt"), &read), None);
    assert_eq!(load_lyrics_from_song(None, &read), None);
    assert_eq!(reads.get(), 0);
    assert!(load_lyrics_from_song(Some("m4a"), &read).is_some());
    assert_eq!(reads.get(), 1);
}

#[test]
fn the_vorbis_field_for_lyrics_is_named() {
    assert_eq!(VORBIS_LYRICS_FIELD, "LYRICS");
}

#[test]
fn only_ascii_capitals_are_lowered() {
    assert_eq!(char_to_lower('A'), 'a');
    assert_eq!(char_to_lower('Z'), 'z');
    assert_eq!(char_to_lower('m'), 'm');
    assert_eq!(char_to_lower('3'), '3');
    assert_eq!(char_to_lower('@'), '@');
    assert_eq!(char_to_lower('['), '[');
    assert_eq!(char_to_lower('É'), 'É');
}

#[test]
fn a_sidecar_file_comes_before_the_tag() {
    let tag_reads = std::cell::Cell::new(0);
    let lyrics = resolve_lyrics(
        || Some("[00:01.00]from the sidecar".to_string()),
        Some("mp3"),
        |_format| {
            tag_reads.set(tag_reads.get() + 1);
            Some("[00:01.00]from the tag".to_string())
        },
    );
    assert_eq!(lyrics, Some(vec![line(1000, "from the sidecar")]));
    assert_eq!(tag_reads.get(), 0);
}

#[test]
fn the_tag_is_read_where_there_is_no_sidecar_file() {
    let lyrics = resolve_lyrics(
        || None,
        Some("mp3"),
        |format| {
            assert_eq!(format, TagFormat::Id3);
            Some("[00:01.00]from the tag".to_string())
        },
    );
    assert_eq!(lyrics, Some(vec![line(1000, "from the tag")]));
}

#[test]
fn no_sidecar_file_and_no_tag_is_not_found() {
    assert_eq!(resolve_lyrics(|| None, Some("mp3"), |_| None), None);
    assert_eq!(resolve_lyrics(|| None, Some("ogg"), |_| Some("x".to_string())), None);
    assert_eq!(resolve_lyrics(|| None, None, |_| Some("x".to_string())), None);
}

#[test]
fn timestamps_are_read_as_milliseconds() {
    assert_eq!(parse_timestamp("00:00"), Some(0));
    assert_eq!(parse_timestamp("00:01.50"), Some(1500));
    assert_eq!(parse_timestamp("12:34.567"), Some(754_567));
    assert_eq!(parse_timestamp("1:1.1"), Some(61_100));
    assert_eq!(parse_timestamp("1.:2."), Some(62_000));
    assert_eq!(parse_timestamp("00:59.9994"), Some(59_999));
    assert_eq!(parse_timestamp("00:59.9995"), Some(60_000));
    assert_eq!(parse_timestamp("0:0.00049999999999999999999999999999"), Some(0));
    assert_eq!(parse_timestamp("0:0.00050000000000000000000000000000"), Some(1));
    assert_eq!(parse_timestamp("000000000000000000000000000001:000000000000000000000002"), Some(62_000));
}

#[test]
fn minutes_may_carry_a_fraction() {
    assert_eq!(parse_timestamp("1.5:00"), Some(90_000));
    assert_eq!(parse_timestamp("1.5:30.25"), Some(120_250));
    assert_eq!(parse_timestamp(".5:0"), Some(30_000));
    assert_eq!(parse_timestamp("0.0001:0"), Some(6));
    assert_eq!(parse_timestamp("0.00001:0"), Some(1));
    assert_eq!(parse_timestamp("0.000008:0"), Some(0));
    assert_eq!(parse_timestamp("0.0000083333:0"), Some(0));
    assert_eq!(parse_timestamp("0.0000083334:0"), Some(1));
    assert_eq!(parse_timestamp("0.01666:59"), Some(60_000));
    assert_eq!(parse_timestamp("0.999999:0"), Some(60_000));
    assert_eq!(parse_timestamp("0.9999916:0"), Some(59_999));
    assert_eq!(parse_timestamp("0.9999917:0"), Some(60_000));
}

#[test]
fn the_two_fields_are_rounded_together() {
    assert_eq!(parse_timestamp("0.000008:0.00002"), Some(1));
    assert_eq!(parse_timestamp("0.000008:0.0000199999"), Some(0));
    assert_eq!(parse_timestamp("0.000004:0.00026"), Some(1));
    assert_eq!(parse_timestamp("0.000004:0.0002599999999999999999999"), Some(0));
    assert_eq!(parse_timestamp("0.0000041666:0.00025"), Some(0));
    assert_eq!(parse_timestamp("0.00000416667:0.00025"), Some(1));
    assert_eq!(parse_timestamp("0.00002499999:0.9999"), Some(1001));
}

#[test]
fn a_plus_sign_may_stand_in_front() {
    assert_eq!(parse_timestamp("+1:+2"), Some(62_000));
    assert_eq!(parse_timestamp("00:+1"), Some(1000));
    assert_eq!(parse_timestamp("+.5:+0.5"), Some(30_500));
}

#[test]
fn a_minus_sign_is_taken_in_front_of_zero_only() {
    assert_eq!(parse_timestamp("-0:-0.0"), Some(0));
    assert_eq!(parse_timestamp("1:-0e5"), Some(60_000));
    assert_eq!(parse_timestamp("-0.000:7"), Some(7000));
    assert_eq!(parse_timestamp("-1:2"), None);
    assert_eq!(parse_timestamp("1:-2"), None);
    assert_eq!(parse_timestamp("-0.0001:0"), None);
    assert_eq!(parse_timestamp("0:-1e-400"), None);
}

#[test]
fn an_exponent_moves_the_point() {
    assert_eq!(parse_timestamp("0:1e1"), Some(10_000));
    assert_eq!(parse_timestamp("1:2e3"), Some(2_060_000));
    assert_eq!(parse_timestamp("0:25E-1"), Some(2500));
    assert_eq!(parse_timestamp("0:2.5e+1"), Some(25_000));
    assert_eq!(parse_timestamp("1e0:1E0"), Some(61_000));
    assert_eq!(parse_timestamp("15e-1:0"), Some(90_000));
    assert_eq!(parse_timestamp("0:1e-3"), Some(1));
    assert_eq!(parse_timestamp("0:4e-4"), Some(0));
    assert_eq!(parse_timestamp("0:5e-4"), Some(1));
    assert_eq!(parse_timestamp("0:.5e1"), Some(5000));
    assert_eq!(parse_timestamp("0:5.e1"), Some(50_000));
    assert_eq!(parse_timestamp("0:0.000123456e6"), Some(123_456));
    assert_eq!(parse_timestamp("0:123456789e-6"), Some(123_457));
    assert_eq!(parse_timestamp("0:1e00000000000000000000000000002"), Some(100_000));
    assert_eq!(parse_timestamp("0:100e-00000000000000000000000000002"), Some(1000));
}

#[test]
fn exponents_out_of_all_range_give_zero_or_the_largest() {
    let largest = i64::MAX as u64;
    assert_eq!(parse_timestamp("1e400:0"), Some(largest));
    assert_eq!(parse_timestamp("0:1e99999999999999999999999999999999"), Some(largest));
    assert_eq!(parse_timestamp("0e400:0"), Some(0));
    assert_eq!(parse_timestamp("0:0.000e99999999999999999999999999999999"), Some(0));
    assert_eq!(parse_timestamp("1e-400:0"), Some(0));
    assert_eq!(parse_timestamp("7:1e-99999999999999999999999999999999"), Some(420_000));
    assert_eq!(parse_timestamp("0:1e15"), Some(1_000_000_000_000_000_000));
    assert_eq!(parse_timestamp("0:1e16"), Some(largest));
}

#[test]
fn infinity_is_the_largest_time() {
    let largest = i64::MAX as u64;
    for stamp in ["inf:0", "0:inf", "infinity:1", "1:Infinity", "+inf:+INF", "INFINITY:inf", "iNf:-0"] {
        assert_eq!(parse_timestamp(stamp), Some(largest));
    }
    for stamp in ["-inf:0", "0:-infinity", "inf:nan", "inf:", "in:0", "infinit:0", "infinityy:0", "inf.:0", "infe1:0"] {
        assert_eq!(parse_timestamp(stamp), None);
    }
}

#[test]
fn what_is_no_timestamp_is_turned_down() {
    for stamp in ["", ":", "1", "1:", ":1", "1:.", "a:1", "1:a", "-1:2", "1:-2", "+:2", "1:+",
        "1:++2", "1:+-2", "1:2e", "1:2e+", "1:2e-", "1:e3", "1:.e3", "1:2e3.5", "1:2e3e4", "1:2ee3",
        "1:2e 3", "1:0x10", "1:1_000", "1:NaN", "1:nan", "+nan:1", " 1:2", "1: 2", "1:2 ", "1;2",
        "1:2.3.4", "1:2,5", "ti:Title", "١:٢"] {
        assert_eq!(parse_timestamp(stamp), None);
    }
}

#[test]
fn timestamps_beyond_63_bits_are_the_largest() {
    let largest = i64::MAX as u64;
    assert_eq!(MAX_MILLIS, largest);
    assert_eq!(parse_timestamp("153722867280912:55.807"), Some(largest));
    assert_eq!(parse_timestamp("153722867280912:55.8064"), Some(largest - 1));
    assert_eq!(parse_timestamp("153722867280912:55.8065"), Some(largest));
    assert_eq!(parse_timestamp("153722867280912.93:0.007"), Some(largest));
    assert_eq!(parse_timestamp("153722867280912.93:0.006"), Some(largest - 1));
    assert_eq!(parse_timestamp("0:9223372036854775.807"), Some(largest));
    assert_eq!(parse_timestamp("0:9223372036854775.806"), Some(largest - 1));
    assert_eq!(parse_timestamp("0:9223372036854776"), Some(largest));
    assert_eq!(parse_timestamp("0:18446744073709551616"), Some(largest));
    assert_eq!(parse_timestamp("18446744073709551616:0"), Some(largest));
    assert_eq!(parse_timestamp("99999999999999999999999999999999999999:0"), Some(largest));
}

#[test]
fn digits_have_their_values() {
    assert_eq!(digit_of('0'), Some(0));
    assert_eq!(digit_of('7'), Some(7));
    assert_eq!(digit_of('9'), Some(9));
    assert_eq!(digit_of('/'), None);
    assert_eq!(digit_of(':'), None);
    assert_eq!(digit_of('a'), None);
    assert_eq!(digit_of('٣'), None);
}

#[test]
fn lines_with_decimal_minutes_are_merged_like_the_others() {
    assert_eq!(parse("[1.5:00]x"), vec![line(90_000, "x")]);
    assert_eq!(parse("[1.5:00]a\n[01:30]b"), vec![line(90_000, "a\nb")]);
    assert_eq!(parse("[00:+1]h\n[0:1e1]x\n[0:1000e-3]i"), vec![line(1000, "h\ni"), line(10_000, "x")]);
    assert_eq!(parse("[inf:0]end\n[00:01]start"), vec![line(1000, "start"), line(i64::MAX as u64, "end")]);
    assert_eq!(parse("[-0:-0]zero"), vec![line(0, "zero")]);
}
