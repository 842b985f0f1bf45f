use vstd::prelude::*;
use crate::error::{MyError, MyResult};

verus! {

/// Run configuration: the report file name, program identification shown
/// in the banner, and the number of input files once known.
pub struct Config {
    pub output_filename: String,
    pub name: String,
    pub author: String,
    pub version: String,
    pub num_files: usize,
    pub path: String,
}

impl Default for Config {
    /// The default configuration: the standard report file name, the
    /// package's own identification, and no files counted yet. The name
    /// and version are this package's metadata, written as literals; the
    /// package declares no author, so the author field carries the empty
    /// author metadata and stays a field the application may fill.
    fn default() -> (c: Config)
        ensures
            c.output_filename@ == "cte_nfes.txt"@,
            c.name@ == "b_encontrar_todas_as_nfes_do_cte"@,
            c.author@ == ""@,
            c.version@ == "0.1.0"@,
            c.num_files == 0,
            c.path@.len() == 0,
    {
        Config {
            output_filename: "cte_nfes.txt".to_owned(),
            name: "b_encontrar_todas_as_nfes_do_cte".to_owned(),
            author: "".to_owned(),
            version: "0.1.0".to_owned(),
            num_files: 0,
            path: String::new(),
        }
    }
}

impl Config {
    pub fn new() -> (c: Config)
        ensures
            c.output_filename@ == "cte_nfes.txt"@,
            c.name@ == "b_encontrar_todas_as_nfes_do_cte"@,
            c.author@ == ""@,
            c.version@ == "0.1.0"@,
            c.num_files == 0,
            c.path@.len() == 0,
    {
        Config::default()
    }

    /// Records how many input files were found and rejects an empty run:
    /// with no files there is nothing to aggregate.
    pub fn get_num_files(&mut self, files: &Vec<String>) -> (r: MyResult<()>)
        ensures
            final(self).num_files == files@.len(),
            final(self).output_filename == old(self).output_filename,
            final(self).name == old(self).name,
            final(self).author == old(self).author,
            final(self).version == old(self).version,
            final(self).path == old(self).path,
            r is Ok <==> files@.len() >= 1,
            r is Err ==> r->Err_0 == MyError::NoXmlFilesFound,
    {
        let num_files = files.len();
        self.num_files = num_files;
        if num_files < 1 {
            Err(MyError::NoXmlFilesFound)
        } else {
            Ok(())
        }
    }
}

} // verus!
