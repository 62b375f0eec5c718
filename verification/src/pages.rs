//! Where the pre-computed chart data lives, and the script of the day page.
use vstd::prelude::*;

use crate::text::{push_char, push_str};

verus! {

/// The chart periods whose data the server pre-computes.
#[derive(Debug, Clone, Copy, PartialEq, Eq, Structural)]
pub enum Span {
    Day,
    Week,
    Month,
    Semester,
    Triennium,
}

/// The directory name of a span under "data/static/".
pub open spec fn span_dir(span: Span) -> Seq<char> {
    match span {
        Span::Day => seq!['d', 'a', 'y'],
        Span::Week => seq!['w', 'e', 'e', 'k'],
        Span::Month => seq!['m', 'o', 'n', 't', 'h'],
        Span::Semester => seq!['s', 'e', 'm', 'e', 's', 't', 'e', 'r'],
        Span::Triennium => seq!['t', 'r', 'i', 'e', 'n', 'n', 'i', 'u', 'm'],
    }
}

/// "data/static/".
pub open spec fn static_root() -> Seq<char> {
    seq!['d', 'a', 't', 'a', '/', 's', 't', 'a', 't', 'i', 'c', '/']
}

/// The directory of a span's JSON files, "data/static/{span}".
pub open spec fn static_dir_text(span: Span) -> Seq<char> {
    static_root() + span_dir(span)
}

/// The JSON file of one period, "data/static/{span}/{key}.json".
pub open spec fn static_json_path_text(span: Span, key: Seq<char>) -> Seq<char> {
    static_dir_text(span) + seq!['/'] + key + seq!['.', 'j', 's', 'o', 'n']
}

/// The directory of a span's JSON files.
pub fn static_dir(span: Span) -> (r: String)
    ensures
        r@ == static_dir_text(span),
{
    let root = "data/static/";
    let dir = match span {
        Span::Day => "day",
        Span::Week => "week",
        Span::Month => "month",
        Span::Semester => "semester",
        Span::Triennium => "triennium",
    };
    proof {
        reveal_strlit("data/static/");
        reveal_strlit("day");
        reveal_strlit("week");
        reveal_strlit("month");
        reveal_strlit("semester");
        reveal_strlit("triennium");
        assert(root@ =~= static_root());
        assert(dir@ =~= span_dir(span));
    }
    let mut s = String::new();
    push_str(&mut s, root);
    push_str(&mut s, dir);
    assert(s@ =~= static_dir_text(span));
    s
}

/// The JSON file of the period `key` of a span.
pub fn static_json_path(span: Span, key: &str) -> (r: String)
    ensures
        r@ == static_json_path_text(span, key@),
{
    let mut s = static_dir(span);
    push_char(&mut s, '/');
    push_str(&mut s, key);
    let ext = ".json";
    proof {
        reveal_strlit(".json");
    }
    push_str(&mut s, ext);
    assert(s@ =~= static_json_path_text(span, key@));
    s
}

/// The chart script of the day page: it fetches the day's readings from
/// `API_URL` and draws one Vega-Lite chart per measurement.
pub const DAY_CHART_SCRIPT: &'static str = r##"
        const metrics = [
            { field: "temperature", title: "Temperature (\u00b0C)", mark: "line" },
            { field: "humidity", title: "Humidity (%)", mark: "line" },
            { field: "wind_speed", title: "Wind Speed (km/h)", mark: "line" },
            { field: "wind_direction", title: "Wind Direction (\u00b0)", mark: "line" },
            { field: "luminosity", title: "Luminosity (lux)", mark: "line" },
            { field: "rainfall", title: "Rainfall (mm)", mark: "bar" }
        ];

        fetch(API_URL).then(r => r.json()).then(data => {
            data.forEach(d => {
                d.hour = d.hour.substring(11);
            });
            metrics.forEach(m => {
                const spec = {
                    "$schema": "https://vega.github.io/schema/vega-lite/v5.json",
                    "width": "container",
                    "height": 300,
                    "data": { "values": data },
                    "mark": { "type": m.mark, "tooltip": true },
                    "encoding": {
                        "x": { "field": "hour", "type": "ordinal", "title": "Hour" },
                        "y": { "field": m.field, "type": "quantitative", "title": m.title }
                    }
                };
                vegaEmbed("#chart-" + m.field, spec, { "actions": false });
            });
        });
    "##;

/// `const API_URL = "`.
pub open spec fn api_url_prefix() -> Seq<char> {
    seq!['c', 'o', 'n', 's', 't', ' ', 'A', 'P', 'I', '_', 'U', 'R', 'L', ' ', '=', ' ', '"']
}

/// The script of the day page: the API URL as a constant, then the chart
/// script.
pub fn day_chart_script(api_url: &str) -> (r: String)
    ensures
        r@ == api_url_prefix() + api_url@ + seq!['"', ';', '\n'] + DAY_CHART_SCRIPT@,
{
    let prefix = "const API_URL = \"";
    proof {
        reveal_strlit("const API_URL = \"");
        assert(prefix@ =~= api_url_prefix());
    }
    let mut s = String::new();
    push_str(&mut s, prefix);
    push_str(&mut s, api_url);
    push_char(&mut s, '"');
    push_char(&mut s, ';');
    push_char(&mut s, '\n');
    push_str(&mut s, DAY_CHART_SCRIPT);
    assert(s@ =~= api_url_prefix() + api_url@ + seq!['"', ';', '\n'] + DAY_CHART_SCRIPT@);
    s
}

} // verus!
