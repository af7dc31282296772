//! Counters and gauges, and their text for scraping.
use vstd::prelude::*;

use crate::text;
use crate::text::{append_decimal, append_signed_decimal};

verus! {

/// What the node has done so far. The counters wrap around.
#[derive(Debug)]
pub struct WalrMetrics {
    pub messages_pushed_total: u64,
    pub messages_acked_total: u64,
    pub messages_polled_total: u64,
    pub in_flight_messages: i64,
    pub wal_compaction_count: u64,
}

/// A number as far as a signed 64-bit gauge holds it.
pub open spec fn wrap_gauge(n: int) -> int {
    (n + 0x8000_0000_0000_0000) % 0x1_0000_0000_0000_0000 - 0x8000_0000_0000_0000
}

/// A number as far as a 64-bit counter holds it.
pub open spec fn wrap_counter(n: int) -> int {
    n % 0x1_0000_0000_0000_0000
}

/// The lines of a metric: its help, its type and its value.
pub open spec fn metric_lines(
    name: Seq<char>,
    help: Seq<char>,
    kind: Seq<char>,
    value: Seq<char>,
) -> Seq<Seq<char>> {
    seq![
        "# HELP "@ + name + " "@ + help,
        "# TYPE "@ + name + " "@ + kind,
        name + " "@ + value,
    ]
}

/// The text of lines, each of which ends in a line break.
pub open spec fn joined(lines: Seq<Seq<char>>) -> Seq<char>
    decreases lines.len(),
{
    if lines.len() == 0 {
        Seq::empty()
    } else {
        joined(lines.drop_last()) + lines.last() + "\n"@
    }
}

/// All lines, one metric behind the other.
pub open spec fn prometheus_lines(m: WalrMetrics, ram_messages: usize, is_leader: bool) -> Seq<
    Seq<char>,
> {
    metric_lines(
        "walrq_messages_pushed_total"@,
        "Total messages pushed to queue"@,
        "counter"@,
        text::decimal(m.messages_pushed_total as nat),
    ) + metric_lines(
        "walrq_messages_acked_total"@,
        "Total messages acknowledged"@,
        "counter"@,
        text::decimal(m.messages_acked_total as nat),
    ) + metric_lines(
        "walrq_messages_polled_total"@,
        "Total messages polled by consumers"@,
        "counter"@,
        text::decimal(m.messages_polled_total as nat),
    ) + metric_lines(
        "walrq_in_flight_messages"@,
        "Current active in-flight visibility leases"@,
        "gauge"@,
        text::signed_decimal(m.in_flight_messages as int),
    ) + metric_lines(
        "walrq_wal_compaction_total"@,
        "Total WAL flip-flop compactions executed"@,
        "counter"@,
        text::decimal(m.wal_compaction_count as nat),
    ) + metric_lines(
        "walrq_hot_messages_in_ram"@,
        "Current messages residing in memory"@,
        "gauge"@,
        text::decimal(ram_messages as nat),
    ) + metric_lines(
        "walrq_is_leader"@,
        "Whether this node is the current Raft leader"@,
        "gauge"@,
        text::decimal(if is_leader { 1 } else { 0 }),
    )
}

/// The whole text.
pub open spec fn prometheus_text(m: WalrMetrics, ram_messages: usize, is_leader: bool) -> Seq<char> {
    joined(prometheus_lines(m, ram_messages, is_leader))
}

proof fn lemma_joined_add(a: Seq<Seq<char>>, b: Seq<Seq<char>>)
    ensures
        joined(a + b) == joined(a) + joined(b),
    decreases b.len(),
{
    if b.len() == 0 {
        assert(a + b =~= a);
        assert(joined(a) + joined(b) =~= joined(a));
    } else {
        lemma_joined_add(a, b.drop_last());
        assert((a + b).drop_last() =~= a + b.drop_last());
        assert((a + b).last() == b.last());
        assert(joined(a + b) =~= joined(a) + joined(b));
    }
}

/// Appends the lines of a metric whose value is written already.
fn append_metric(out: &mut String, name: &str, help: &str, kind: &str, value: &str)
    ensures
        final(out)@ == old(out)@ + joined(metric_lines(name@, help@, kind@, value@)),
{
    out.append("# HELP ");
    out.append(name);
    out.append(" ");
    out.append(help);
    out.append("\n# TYPE ");
    out.append(name);
    out.append(" ");
    out.append(kind);
    out.append("\n");
    out.append(name);
    out.append(" ");
    out.append(value);
    out.append("\n");
    proof {
        reveal_strlit("\n# TYPE ");
        reveal_strlit("# TYPE ");
        reveal_strlit("\n");
        assert("\n# TYPE "@ =~= "\n"@ + "# TYPE "@);
        let lines = metric_lines(name@, help@, kind@, value@);
        let two = lines.drop_last();
        let one = two.drop_last();
        assert(one.drop_last() =~= Seq::empty());
        assert(joined(one.drop_last()) == Seq::<char>::empty());
        assert(joined(one) =~= one.last() + "\n"@);
        assert(joined(two) == joined(one) + two.last() + "\n"@);
        assert(joined(lines) == joined(two) + lines.last() + "\n"@);
        assert(out@ =~= old(out)@ + joined(lines));
    }
}

fn append_count(out: &mut String, name: &str, help: &str, kind: &str, value: u64)
    ensures
        final(out)@ == old(out)@ + joined(
            metric_lines(name@, help@, kind@, text::decimal(value as nat)),
        ),
{
    let mut digits: String = String::new();
    append_decimal(&mut digits, value);
    proof {
        assert(digits@ =~= text::decimal(value as nat));
    }
    append_metric(out, name, help, kind, digits.as_str());
}

impl Default for WalrMetrics {
    fn default() -> (res: Self)
        ensures
            res == (WalrMetrics {
                messages_pushed_total: 0,
                messages_acked_total: 0,
                messages_polled_total: 0,
                in_flight_messages: 0,
                wal_compaction_count: 0,
            }),
    {
        WalrMetrics {
            messages_pushed_total: 0,
            messages_acked_total: 0,
            messages_polled_total: 0,
            in_flight_messages: 0,
            wal_compaction_count: 0,
        }
    }
}

impl WalrMetrics {
    pub fn record_push(&mut self, count: u64)
        ensures
            *final(self) == (WalrMetrics {
                messages_pushed_total: wrap_counter(
                    old(self).messages_pushed_total + count,
                ) as u64,
                ..*old(self)
            }),
    {
        self.messages_pushed_total = self.messages_pushed_total.wrapping_add(count);
    }

    pub fn record_ack(&mut self, count: u64)
        ensures
            *final(self) == (WalrMetrics {
                messages_acked_total: wrap_counter(old(self).messages_acked_total + count) as u64,
                in_flight_messages: wrap_gauge(old(self).in_flight_messages - count) as i64,
                ..*old(self)
            }),
    {
        proof {
            assert(count as i64 == if count < 0x8000_0000_0000_0000 {
                count as int
            } else {
                count - 0x1_0000_0000_0000_0000
            }) by (bit_vector);
        }
        self.messages_acked_total = self.messages_acked_total.wrapping_add(count);
        self.in_flight_messages = self.in_flight_messages.wrapping_sub(count as i64);
    }

    pub fn record_poll(&mut self, count: u64)
        ensures
            *final(self) == (WalrMetrics {
                messages_polled_total: wrap_counter(
                    old(self).messages_polled_total + count,
                ) as u64,
                in_flight_messages: wrap_gauge(old(self).in_flight_messages + count) as i64,
                ..*old(self)
            }),
    {
        proof {
            assert(count as i64 == if count < 0x8000_0000_0000_0000 {
                count as int
            } else {
                count - 0x1_0000_0000_0000_0000
            }) by (bit_vector);
        }
        self.messages_polled_total = self.messages_polled_total.wrapping_add(count);
        self.in_flight_messages = self.in_flight_messages.wrapping_add(count as i64);
    }

    pub fn record_wal_compact(&mut self)
        ensures
            *final(self) == (WalrMetrics {
                wal_compaction_count: wrap_counter(old(self).wal_compaction_count + 1) as u64,
                ..*old(self)
            }),
    {
        self.wal_compaction_count = self.wal_compaction_count.wrapping_add(1);
    }

    /// The metrics in the Prometheus text format.
    pub fn render_prometheus(&self, ram_messages: usize, is_leader: bool) -> (out: String)
        ensures
            out@ == prometheus_text(*self, ram_messages, is_leader),
    {
        let mut out: String = String::new();
        append_count(
            &mut out,
            "walrq_messages_pushed_total",
            "Total messages pushed to queue",
            "counter",
            self.messages_pushed_total,
        );
        append_count(
            &mut out,
            "walrq_messages_acked_total",
            "Total messages acknowledged",
            "counter",
            self.messages_acked_total,
        );
        append_count(
            &mut out,
            "walrq_messages_polled_total",
            "Total messages polled by consumers",
            "counter",
            self.messages_polled_total,
        );
        let mut in_flight: String = String::new();
        append_signed_decimal(&mut in_flight, self.in_flight_messages);
        proof {
            assert(in_flight@ =~= text::signed_decimal(self.in_flight_messages as int));
        }
        append_metric(
            &mut out,
            "walrq_in_flight_messages",
            "Current active in-flight visibility leases",
            "gauge",
            in_flight.as_str(),
        );
        append_count(
            &mut out,
            "walrq_wal_compaction_total",
            "Total WAL flip-flop compactions executed",
            "counter",
            self.wal_compaction_count,
        );
        append_count(
            &mut out,
            "walrq_hot_messages_in_ram",
            "Current messages residing in memory",
            "gauge",
            ram_messages as u64,
        );
        append_count(
            &mut out,
            "walrq_is_leader",
            "Whether this node is the current Raft leader",
            "gauge",
            if is_leader { 1 } else { 0 },
        );
        proof {
            let g0 = metric_lines(
                "walrq_messages_pushed_total"@,
                "Total messages pushed to queue"@,
                "counter"@,
                text::decimal(self.messages_pushed_total as nat),
            );
            let g1 = metric_lines(
                "walrq_messages_acked_total"@,
                "Total messages acknowledged"@,
                "counter"@,
                text::decimal(self.messages_acked_total as nat),
            );
            let g2 = metric_lines(
                "walrq_messages_polled_total"@,
                "Total messages polled by consumers"@,
                "counter"@,
                text::decimal(self.messages_polled_total as nat),
            );
            let g3 = metric_lines(
                "walrq_in_flight_messages"@,
                "Current active in-flight visibility leases"@,
                "gauge"@,
                text::signed_decimal(self.in_flight_messages as int),
            );
            let g4 = metric_lines(
                "walrq_wal_compaction_total"@,
                "Total WAL flip-flop compactions executed"@,
                "counter"@,
                text::decimal(self.wal_compaction_count as nat),
            );
            let g5 = metric_lines(
                "walrq_hot_messages_in_ram"@,
                "Current messages residing in memory"@,
                "gauge"@,
                text::decimal(ram_messages as nat),
            );
            let g6 = metric_lines(
                "walrq_is_leader"@,
                "Whether this node is the current Raft leader"@,
                "gauge"@,
                text::decimal(if is_leader { 1 } else { 0 }),
            );
            lemma_joined_add(g0, g1);
            lemma_joined_add(g0 + g1, g2);
            lemma_joined_add(g0 + g1 + g2, g3);
            lemma_joined_add(g0 + g1 + g2 + g3, g4);
            lemma_joined_add(g0 + g1 + g2 + g3 + g4, g5);
            lemma_joined_add(g0 + g1 + g2 + g3 + g4 + g5, g6);
            assert(out@ =~= prometheus_text(*self, ram_messages, is_leader));
        }
        out
    }
}

/// Acknowledging as many messages as were polled brings the in-flight gauge back.
pub proof fn law_in_flight_balances(in_flight: i64, count: u64)
    ensures
        wrap_gauge(wrap_gauge(in_flight + count) - count) == in_flight,
{
}

/// The text holds no line break.
pub open spec fn is_line(line: Seq<char>) -> bool {
    forall|i: int| 0 <= i < line.len() ==> #[trigger] line[i] != '\n'
}

proof fn lemma_line_add(a: Seq<char>, b: Seq<char>)
    requires
        is_line(a),
        is_line(b),
    ensures
        is_line(a + b),
{
    assert forall|i: int| 0 <= i < (a + b).len() implies #[trigger] (a + b)[i] != '\n' by {
        if i < a.len() {
            assert((a + b)[i] == a[i]);
        } else {
            assert((a + b)[i] == b[i - a.len()]);
        }
    }
}

proof fn lemma_metric_is_lines(
    name: Seq<char>,
    help: Seq<char>,
    kind: Seq<char>,
    value: Seq<char>,
)
    requires
        is_line(name),
        is_line(help),
        is_line(kind),
        is_line(value),
    ensures
        forall|i: int| 0 <= i < 3 ==> is_line(#[trigger] metric_lines(name, help, kind, value)[i]),
{
    reveal_strlit("# HELP ");
    reveal_strlit("# TYPE ");
    reveal_strlit(" ");
    assert(is_line("# HELP "@));
    assert(is_line("# TYPE "@));
    assert(is_line(" "@));
    lemma_line_add("# HELP "@, name);
    lemma_line_add("# HELP "@ + name, " "@);
    lemma_line_add("# HELP "@ + name + " "@, help);
    lemma_line_add("# TYPE "@, name);
    lemma_line_add("# TYPE "@ + name, " "@);
    lemma_line_add("# TYPE "@ + name + " "@, kind);
    lemma_line_add(name, " "@);
    lemma_line_add(name + " "@, value);
}

proof fn lemma_digits_are_a_line(n: nat)
    ensures
        is_line(text::decimal(n)),
    decreases n,
{
    if n < 10 {
        assert(text::decimal(n) =~= seq![text::digit(n)]);
    } else {
        lemma_digits_are_a_line(n / 10);
    }
}

/// The names, kinds and help texts hold no line break.
proof fn lemma_words_are_lines()
    ensures
        is_line("walrq_messages_pushed_total"@),
        is_line("Total messages pushed to queue"@),
        is_line("counter"@),
        is_line("walrq_messages_acked_total"@),
        is_line("Total messages acknowledged"@),
        is_line("walrq_messages_polled_total"@),
        is_line("Total messages polled by consumers"@),
        is_line("walrq_in_flight_messages"@),
        is_line("Current active in-flight visibility leases"@),
        is_line("gauge"@),
        is_line("walrq_wal_compaction_total"@),
        is_line("Total WAL flip-flop compactions executed"@),
        is_line("walrq_hot_messages_in_ram"@),
        is_line("Current messages residing in memory"@),
        is_line("walrq_is_leader"@),
        is_line("Whether this node is the current Raft leader"@),
{
    reveal_strlit("walrq_messages_pushed_total");
    reveal_strlit("Total messages pushed to queue");
    reveal_strlit("counter");
    reveal_strlit("walrq_messages_acked_total");
    reveal_strlit("Total messages acknowledged");
    reveal_strlit("walrq_messages_polled_total");
    reveal_strlit("Total messages polled by consumers");
    reveal_strlit("walrq_in_flight_messages");
    reveal_strlit("Current active in-flight visibility leases");
    reveal_strlit("gauge");
    reveal_strlit("walrq_wal_compaction_total");
    reveal_strlit("Total WAL flip-flop compactions executed");
    reveal_strlit("walrq_hot_messages_in_ram");
    reveal_strlit("Current messages residing in memory");
    reveal_strlit("walrq_is_leader");
    reveal_strlit("Whether this node is the current Raft leader");
}

/// A metric's lines stand at this place.
pub open spec fn is_metric_at(lines: Seq<Seq<char>>, at: int) -> bool {
    exists|name: Seq<char>, help: Seq<char>, kind: Seq<char>, value: Seq<char>|
        lines.subrange(at, at + 3) == #[trigger] metric_lines(name, help, kind, value)
}

/// The text is made of 21 lines, in groups of three: the help, the type and the value of a
/// metric.
pub proof fn law_text_has_three_lines_for_each_metric(
    m: WalrMetrics,
    ram_messages: usize,
    is_leader: bool,
)
    ensures
        prometheus_lines(m, ram_messages, is_leader).len() == 21,
        prometheus_text(m, ram_messages, is_leader) == joined(
            prometheus_lines(m, ram_messages, is_leader),
        ),
        forall|i: int|
            0 <= i < 21 ==> is_line(#[trigger] prometheus_lines(m, ram_messages, is_leader)[i]),
        is_metric_at(prometheus_lines(m, ram_messages, is_leader), 0),
        is_metric_at(prometheus_lines(m, ram_messages, is_leader), 3),
        is_metric_at(prometheus_lines(m, ram_messages, is_leader), 6),
        is_metric_at(prometheus_lines(m, ram_messages, is_leader), 9),
        is_metric_at(prometheus_lines(m, ram_messages, is_leader), 12),
        is_metric_at(prometheus_lines(m, ram_messages, is_leader), 15),
        is_metric_at(prometheus_lines(m, ram_messages, is_leader), 18),
{
    let lines = prometheus_lines(m, ram_messages, is_leader);
    lemma_words_are_lines();
    lemma_digits_are_a_line(m.messages_pushed_total as nat);
    lemma_digits_are_a_line(m.messages_acked_total as nat);
    lemma_digits_are_a_line(m.messages_polled_total as nat);
    lemma_digits_are_a_line(m.wal_compaction_count as nat);
    lemma_digits_are_a_line(ram_messages as nat);
    lemma_digits_are_a_line(if is_leader { 1 } else { 0 });
    let n = m.in_flight_messages as int;
    lemma_digits_are_a_line((if n < 0 { -n } else { n }) as nat);
    if n < 0 {
        assert(is_line(seq!['-']));
        lemma_line_add(seq!['-'], text::decimal((-n) as nat));
    }
    lemma_metric_is_lines(
        "walrq_messages_pushed_total"@,
        "Total messages pushed to queue"@,
        "counter"@,
        text::decimal(m.messages_pushed_total as nat),
    );
    let g0 = metric_lines(
        "walrq_messages_pushed_total"@,
        "Total messages pushed to queue"@,
        "counter"@,
        text::decimal(m.messages_pushed_total as nat),
    );
    assert(lines.subrange(0, 3) =~= g0);
    lemma_metric_is_lines(
        "walrq_messages_acked_total"@,
        "Total messages acknowledged"@,
        "counter"@,
        text::decimal(m.messages_acked_total as nat),
    );
    let g1 = metric_lines(
        "walrq_messages_acked_total"@,
        "Total messages acknowledged"@,
        "counter"@,
        text::decimal(m.messages_acked_total as nat),
    );
    assert(lines.subrange(3, 6) =~= g1);
    lemma_metric_is_lines(
        "walrq_messages_polled_total"@,
        "Total messages polled by consumers"@,
        "counter"@,
        text::decimal(m.messages_polled_total as nat),
    );
    let g2 = metric_lines(
        "walrq_messages_polled_total"@,
        "Total messages polled by consumers"@,
        "counter"@,
        text::decimal(m.messages_polled_total as nat),
    );
    assert(lines.subrange(6, 9) =~= g2);
    lemma_metric_is_lines(
        "walrq_in_flight_messages"@,
        "Current active in-flight visibility leases"@,
        "gauge"@,
        text::signed_decimal(n),
    );
    let g3 = metric_lines(
        "walrq_in_flight_messages"@,
        "Current active in-flight visibility leases"@,
        "gauge"@,
        text::signed_decimal(n),
    );
    assert(lines.subrange(9, 12) =~= g3);
    lemma_metric_is_lines(
        "walrq_wal_compaction_total"@,
        "Total WAL flip-flop compactions executed"@,
        "counter"@,
        text::decimal(m.wal_compaction_count as nat),
    );
    let g4 = metric_lines(
        "walrq_wal_compaction_total"@,
        "Total WAL flip-flop compactions executed"@,
        "counter"@,
        text::decimal(m.wal_compaction_count as nat),
    );
    assert(lines.subrange(12, 15) =~= g4);
    lemma_metric_is_lines(
        "walrq_hot_messages_in_ram"@,
        "Current messages residing in memory"@,
        "gauge"@,
        text::decimal(ram_messages as nat),
    );
    let g5 = metric_lines(
        "walrq_hot_messages_in_ram"@,
        "Current messages residing in memory"@,
        "gauge"@,
        text::decimal(ram_messages as nat),
    );
    assert(lines.subrange(15, 18) =~= g5);
    lemma_metric_is_lines(
        "walrq_is_leader"@,
        "Whether this node is the current Raft leader"@,
        "gauge"@,
        text::decimal(if is_leader { 1 } else { 0 }),
    );
    let g6 = metric_lines(
        "walrq_is_leader"@,
        "Whether this node is the current Raft leader"@,
        "gauge"@,
        text::decimal(if is_leader { 1 } else { 0 }),
    );
    assert(lines.subrange(18, 21) =~= g6);
    assert forall|i: int| 0 <= i < 21 implies is_line(#[trigger] lines[i]) by {
        assert(0 <= i < 3 ==> lines[i] == g0[i - 0]);
        assert(3 <= i < 6 ==> lines[i] == g1[i - 3]);
        assert(6 <= i < 9 ==> lines[i] == g2[i - 6]);
        assert(9 <= i < 12 ==> lines[i] == g3[i - 9]);
        assert(12 <= i < 15 ==> lines[i] == g4[i - 12]);
        assert(15 <= i < 18 ==> lines[i] == g5[i - 15]);
        assert(18 <= i < 21 ==> lines[i] == g6[i - 18]);
    }
}

/// The text reports each of the seven values under its own name, in a line of its own.
pub proof fn law_text_reports_every_value(m: WalrMetrics, ram_messages: usize, is_leader: bool)
    ensures
        ({
            let lines = prometheus_lines(m, ram_messages, is_leader);
            &&& lines.contains(
                "walrq_messages_pushed_total"@ + " "@ + text::decimal(
                    m.messages_pushed_total as nat,
                ),
            )
            &&& lines.contains(
                "walrq_messages_acked_total"@ + " "@ + text::decimal(
                    m.messages_acked_total as nat,
                ),
            )
            &&& lines.contains(
                "walrq_messages_polled_total"@ + " "@ + text::decimal(
                    m.messages_polled_total as nat,
                ),
            )
            &&& lines.contains(
                "walrq_in_flight_messages"@ + " "@ + text::signed_decimal(
                    m.in_flight_messages as int,
                ),
            )
            &&& lines.contains(
                "walrq_wal_compaction_total"@ + " "@ + text::decimal(
                    m.wal_compaction_count as nat,
                ),
            )
            &&& lines.contains(
                "walrq_hot_messages_in_ram"@ + " "@ + text::decimal(ram_messages as nat),
            )
            &&& lines.contains("walrq_is_leader"@ + " "@ + if is_leader {
                seq!['1']
            } else {
                seq!['0']
            })
            &&& forall|i: int|
                0 <= i < lines.len() ==> is_line_of(
                    prometheus_text(m, ram_messages, is_leader),
                    #[trigger] lines[i],
                )
        }),
{
    let lines = prometheus_lines(m, ram_messages, is_leader);
    law_text_has_three_lines_for_each_metric(m, ram_messages, is_leader);
    assert(lines[2] == "walrq_messages_pushed_total"@ + " "@ + text::decimal(
        m.messages_pushed_total as nat,
    ));
    assert(lines[5] == "walrq_messages_acked_total"@ + " "@ + text::decimal(
        m.messages_acked_total as nat,
    ));
    assert(lines[8] == "walrq_messages_polled_total"@ + " "@ + text::decimal(
        m.messages_polled_total as nat,
    ));
    assert(lines[11] == "walrq_in_flight_messages"@ + " "@ + text::signed_decimal(
        m.in_flight_messages as int,
    ));
    assert(lines[14] == "walrq_wal_compaction_total"@ + " "@ + text::decimal(
        m.wal_compaction_count as nat,
    ));
    assert(lines[17] == "walrq_hot_messages_in_ram"@ + " "@ + text::decimal(ram_messages as nat));
    assert(text::decimal(1) =~= seq!['1']);
    assert(text::decimal(0) =~= seq!['0']);
    assert(lines[20] == "walrq_is_leader"@ + " "@ + if is_leader {
        seq!['1']
    } else {
        seq!['0']
    });
    assert forall|i: int| 0 <= i < lines.len() implies is_line_of(
        prometheus_text(m, ram_messages, is_leader),
        #[trigger] lines[i],
    ) by {
        lemma_joined_holds(lines, i);
    }
}

/// The line stands in the text, with its line break.
pub open spec fn is_line_of(whole: Seq<char>, line: Seq<char>) -> bool {
    exists|before: Seq<char>, behind: Seq<char>|
        whole == #[trigger] (before + line + "\n"@ + behind)
}

proof fn lemma_joined_holds(lines: Seq<Seq<char>>, i: int)
    requires
        0 <= i < lines.len(),
    ensures
        is_line_of(joined(lines), lines[i]),
    decreases lines.len(),
{
    let head = lines.drop_last();
    if i < head.len() {
        lemma_joined_holds(head, i);
        let (before, behind) = choose|before: Seq<char>, behind: Seq<char>|
            joined(head) == #[trigger] (before + head[i] + "\n"@ + behind);
        let more = behind + lines.last() + "\n"@;
        assert(joined(lines) =~= before + lines[i] + "\n"@ + more);
    } else {
        assert(joined(lines) =~= joined(head) + lines[i] + "\n"@ + Seq::<char>::empty());
    }
}

}
