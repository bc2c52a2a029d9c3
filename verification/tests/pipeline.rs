use crossbeam::channel::bounded;
use loc_stats::config::{Language, ScanPath};
use loc_stats::parser::Parser;
use loc_stats::process::{aggregate_results, initiate_results_map, process_file, ResultTable};
use loc_stats::walker::ScanTask;

fn source_files() -> Vec<(ScanTask, Option<Vec<u8>>)> {
    let mut files = Vec::new();
    for i in 0..40u32 {
        let language = if i % 3 == 0 { Language::Typescript } else { Language::Javascript };
        let name = format!("file{}.src", i).into_bytes();
        let path = ScanPath { components: vec![b"proj".to_vec(), name] };
        let mut text = String::new();
        for line in 0..(i % 7 + 1) {
            text.push_str(&format!("call({});\n", line));
        }
        for _ in 0..(i % 4) {
            text.push_str("// note\n\n");
        }
        if i % 5 == 0 {
            text.push_str("/* open\nstill open\n*/\n");
        }
        let content = match i % 11 {
            9 => None,
            10 => Some(b"ok();\n\xff\n".to_vec()),
            _ => Some(text.into_bytes()),
        };
        files.push((ScanTask { path, language }, content));
    }
    files
}

fn run_in_turn(files: Vec<(ScanTask, Option<Vec<u8>>)>) -> ResultTable {
    let mut table = initiate_results_map();
    for (task, content) in files {
        if let Ok(parser) = process_file(&task, content.as_deref()) {
            aggregate_results(&mut table, parser);
        }
    }
    table
}

fn run_with_workers(workers: usize, files: Vec<(ScanTask, Option<Vec<u8>>)>) -> ResultTable {
    let (task_sender, task_receiver) = bounded::<(ScanTask, Option<Vec<u8>>)>(0);
    let (result_sender, result_receiver) = bounded::<Parser>(0);
    crossbeam::scope(|scope| {
        for _ in 0..workers {
            let tasks = task_receiver.clone();
            let results = result_sender.clone();
            scope.spawn(move |_| {
                while let Ok((task, content)) = tasks.recv() {
                    if let Ok(parser) = process_file(&task, content.as_deref()) {
                        results.send(parser).unwrap();
                    }
                }
            });
        }
        drop(task_receiver);
        drop(result_sender);
        let aggregator = scope.spawn(move |_| {
            let mut table = initiate_results_map();
            while let Ok(parser) = result_receiver.recv() {
                aggregate_results(&mut table, parser);
            }
            table
        });
        for file in files {
            task_sender.send(file).unwrap();
        }
        drop(task_sender);
        aggregator.join().unwrap()
    })
    .unwrap()
}

#[test]
fn one_worker_and_many_workers_fill_the_same_table() {
    let expected = run_in_turn(source_files());
    assert_eq!(expected.javascript.0 + expected.typescript.0, 131);
    for workers in [1, 2, 3, 8] {
        assert_eq!(run_with_workers(workers, source_files()), expected);
    }
}

#[test]
fn workers_without_work_leave_the_table_empty() {
    assert_eq!(run_with_workers(3, Vec::new()), initiate_results_map());
}
