use rsplug::log::{dual_bar_cells, loading_bar_width_for, Message};
use rsplug::path::Path;
use rsplug::progress::manager::ProgressManager;
use rsplug::progress::{BarRef, Look, Place, Shape, Span, UiOp};

/// A bar that is on the screen.
struct Row {
    bar: BarRef,
    look: Look,
    prefix: String,
    message: String,
    position: u64,
    length: u64,
}

/// What the screen shows: printed lines, and below them the bars.
struct Screen {
    printed: Vec<String>,
    rows: Vec<Row>,
    running: usize,
    width: usize,
}

fn plain(spans: &[Span]) -> String {
    spans.iter().map(|s| s.text.as_str()).collect()
}

impl Screen {
    fn new(width: usize) -> Screen {
        Screen {
            printed: Vec::new(),
            rows: Vec::new(),
            running: 0,
            width,
        }
    }

    fn place_of(&self, bar: &BarRef) -> Option<usize> {
        self.rows.iter().position(|row| &row.bar == bar)
    }

    fn row(&mut self, bar: &BarRef) -> Option<&mut Row> {
        self.rows.iter_mut().find(|row| &row.bar == bar)
    }

    fn draw(&mut self, op: UiOp) {
        match op {
            UiOp::Add {
                bar,
                place,
                shape,
                look,
                prefix,
                ..
            } => {
                let at = match &place {
                    Place::End => None,
                    Place::Before(other) => self.place_of(other),
                    Place::After(other) => self.place_of(other).map(|i| i + 1),
                };
                let length = match shape {
                    Shape::Length(n) => n,
                    Shape::NoLength | Shape::Spinner => 0,
                };
                let row = Row {
                    bar,
                    look,
                    prefix,
                    message: String::new(),
                    position: 0,
                    length,
                };
                self.rows.insert(at.unwrap_or(self.rows.len()), row);
            }
            UiOp::Message(bar, message) | UiOp::Finish(bar, message) => {
                if let Some(row) = self.row(&bar) {
                    row.message = plain(&message);
                }
            }
            UiOp::Prefix(bar, prefix) => {
                if let Some(row) = self.row(&bar) {
                    row.prefix = plain(&prefix);
                }
            }
            UiOp::Style(bar, look) | UiOp::Redraw(bar, look) => {
                if let Some(row) = self.row(&bar) {
                    row.look = look;
                }
            }
            UiOp::IncLength(bar, n) => {
                if let Some(row) = self.row(&bar) {
                    row.length += n;
                }
            }
            UiOp::Inc(bar, n) => {
                if let Some(row) = self.row(&bar) {
                    row.position += n;
                }
            }
            UiOp::Length(bar, n) => {
                if let Some(row) = self.row(&bar) {
                    row.length = n;
                }
            }
            UiOp::Position(bar, n) => {
                if let Some(row) = self.row(&bar) {
                    row.position = n;
                }
            }
            UiOp::Clear(bar) => self.rows.retain(|row| row.bar != bar),
            UiOp::Print(block) => self.printed.push(plain(&block)),
            UiOp::Running(n) => self.running = n,
            UiOp::Error(message) => self.printed.push(message),
            UiOp::StopTick(_) | UiOp::Title(_) | UiOp::ClearTitle | UiOp::Timer(_) => {}
        }
    }

    fn line(&self, row: &Row) -> String {
        let Row {
            prefix,
            message,
            position,
            length,
            ..
        } = row;
        match row.look {
            Look::Plain | Look::Summary => format!("{prefix} {message}"),
            Look::SpinnerMid => format!("   ├─ {prefix} {message}"),
            Look::SpinnerLast => format!("   └─ {prefix} {message}"),
            Look::BlankMid => "   │".to_string(),
            Look::BlankLast => String::new(),
            Look::NoteMid => format!("   │   {prefix} {message}"),
            Look::NoteLast => format!("       {prefix} {message}"),
            Look::BarMid => format!("   ├─ {prefix} {position}/{length}"),
            Look::BarLast => format!("   └─ {prefix} {position}/{length}"),
            Look::Loading => {
                let width = loading_bar_width_for(self.width, self.running);
                let (done, running, idle) =
                    dual_bar_cells(*position, self.running as u64, *length, width);
                format!(
                    "{prefix} [{}{}{}] {position}/{length} {} active",
                    "■".repeat(done),
                    "□".repeat(running),
                    " ".repeat(idle),
                    self.running
                )
            }
        }
    }

    fn rendered(&self) -> String {
        let mut lines = self.printed.clone();
        lines.extend(self.rows.iter().map(|row| self.line(row)));
        lines.join("\n")
    }
}

struct Shown {
    manager: ProgressManager,
    screen: Screen,
}

impl Shown {
    fn new(width: usize) -> Shown {
        Shown {
            manager: ProgressManager::new(),
            screen: Screen::new(width),
        }
    }

    fn process(&mut self, message: Message) {
        self.manager.process(message);
        for op in self.manager.take_ops() {
            self.screen.draw(op);
        }
    }

    fn cache(&mut self, stage: &str, url: &str) {
        self.process(Message::Cache(stage.to_string(), url.to_string()));
    }

    fn configs(&mut self) {
        for name in ["alpha", "beta", "gamma"] {
            self.process(Message::ConfigFound(Path::parse(&format!(
                "/tmp/rsplug/{name}.toml"
            ))));
        }
        self.process(Message::ConfigWalkFinish);
    }

    fn rendered(&self) -> String {
        self.screen.rendered()
    }
}

#[test]
fn loading_bar_does_not_remain_on_screen_after_update_run() {
    let mut m = Shown::new(80);

    m.process(Message::ConfigWalkFinish);
    m.process(Message::LoadBegin { total: 2 });
    assert!(m.rendered().contains("Loading"));

    m.cache("Updating", "file:///x/a");
    m.cache("Updating:done", "file:///x/a");
    m.cache("Fetching", "file:///x/a");
    m.process(Message::CacheFetchObjectsProgress {
        id: "a".to_string(),
        total_objs_count: 1,
        received_objs_count: 1,
    });
    m.process(Message::LoadPluginDone);
    m.cache("Updating", "file:///x/b");
    m.cache("Updating:done", "file:///x/b");
    m.process(Message::LoadPluginDone);

    m.process(Message::LoadDone);
    m.process(Message::MergeFinished {
        total: 2,
        merged: 1,
    });

    let rendered = m.rendered();
    assert!(
        !rendered.contains("Loading"),
        "loading bar must be cleared after the run; got:\n{rendered}"
    );
}

#[test]
fn config_summary_survives_resolving_clear_before_following_progress() {
    let mut m = Shown::new(120);

    m.configs();
    m.process(Message::GraphQLResolveProgress {
        resolved: 27,
        total: 124,
    });
    assert!(m.rendered().contains("Resolving"));
    m.process(Message::GraphQLResolveProgress {
        resolved: 124,
        total: 124,
    });
    m.cache("Updating", "https://example.test/plugin");
    m.process(Message::LoadBegin { total: 128 });

    let rendered = m.rendered();
    let rendered_lines = rendered.lines().map(str::trim_end).collect::<Vec<_>>();
    assert!(
        rendered_lines.contains(&"        alpha beta gamma"),
        "config summary's final line must survive Resolving clear; got:\n{rendered}"
    );
    assert!(
        !rendered.contains("Resolving"),
        "completed Resolving bar must not remain; got:\n{rendered}"
    );
}

#[test]
fn config_summary_remains_on_separate_lines_above_active_progress() {
    let mut m = Shown::new(120);

    m.configs();
    let rendered_after_config = m.rendered();
    assert!(
        rendered_after_config.contains("Config 3 files"),
        "config summary must render before progress starts; got:\n{rendered_after_config}"
    );
    m.process(Message::GraphQLResolveProgress {
        resolved: 27,
        total: 124,
    });
    m.cache("Updating", "https://example.test/plugin");
    m.process(Message::LoadBegin { total: 128 });

    let rendered = m.rendered();
    let rendered_lines = rendered.lines().map(str::trim_end).collect::<Vec<_>>();
    let config_lines = [
        "Config 3 files",
        "    /tmp/rsplug (3)",
        "        alpha beta gamma",
    ];
    for line in config_lines {
        assert!(
            rendered_lines.contains(&line),
            "config line must remain separate; missing {line:?} in:\n{rendered}"
        );
    }
    let config_last = rendered_lines
        .iter()
        .position(|line| *line == "        alpha beta gamma")
        .unwrap();
    let resolving = rendered_lines
        .iter()
        .position(|line| line.contains("Resolving"))
        .unwrap();
    assert!(
        config_last < resolving,
        "config summary must be above progress bars; got:\n{rendered}"
    );
}

#[test]
fn fetch_done_note_is_below_object_progress() {
    let mut m = Shown::new(100);

    m.cache("Updating", "file:///x/a");
    m.cache("Updating:done", "file:///x/a");
    m.cache("Fetching", "file:///x/a");
    m.process(Message::CacheFetchObjectsProgress {
        id: "a".to_string(),
        total_objs_count: 10,
        received_objs_count: 10,
    });

    let rendered = m.rendered();
    let updating = rendered.find("Updating").expect("updating bar");
    let fetching = rendered.find("Fetching").expect("fetching bar");
    let objects = rendered.find("Objects").expect("objects bar");
    assert!(
        updating < fetching,
        "fetching should follow updating; got:\n{rendered}"
    );
    assert!(
        fetching < objects,
        "objects should follow fetching while fetch is running; got:\n{rendered}"
    );

    m.cache("Fetching:done", "file:///x/a");

    let rendered = m.rendered();
    assert!(
        rendered.contains("fetched"),
        "done note missing; got:\n{rendered}"
    );
    let updating = rendered.find("Updating").expect("updating bar");
    let fetched = rendered.find("fetched").expect("done note");
    let objects = rendered.find("Objects").expect("objects bar");
    assert!(
        updating < fetched && fetched < objects,
        "done note should keep the fetching row position above object progress; got:\n{rendered}"
    );
    assert!(
        rendered.contains("file:///x/a"),
        "done url; got:\n{rendered}"
    );
}

#[test]
fn loading_bar_shows_running_region_even_at_zero_done() {
    let mut m = Shown::new(100);

    m.process(Message::LoadBegin { total: 10 });
    for _ in 0..3 {
        m.process(Message::LoadPluginRunning);
    }

    let rendered = m.rendered();
    assert!(
        rendered.contains('□'),
        "running region must show before any completion; got:\n{rendered}"
    );
    assert!(
        rendered.contains("0/10"),
        "pos/len at zero done; got:\n{rendered}"
    );
    assert!(
        rendered.contains("3 active"),
        "running count in annotation; got:\n{rendered}"
    );

    m.process(Message::LoadPluginDone);
    m.process(Message::LoadPluginDone);

    let rendered = m.rendered();
    assert!(rendered.contains('■'), "done region; got:\n{rendered}");
    assert!(rendered.contains('□'), "running region; got:\n{rendered}");
    assert!(
        rendered.contains("2/10"),
        "pos/len after completions; got:\n{rendered}"
    );

    m.process(Message::LoadDone);
    m.process(Message::MergeFinished {
        total: 2,
        merged: 1,
    });
    let rendered = m.rendered();
    assert!(
        !rendered.contains("Loading"),
        "loading bar must be cleared after merge; got:\n{rendered}"
    );
}
